use std::rc::Rc;
use vstd::prelude::*;
use vstd::string::StringExecFns;

use crate::shared::rc_clone;
use crate::value::Value;

verus! {

/// A JavaScript symbol: a unique id and a description.
pub struct JsSymbol {
    id: usize,
    description: String,
}

impl View for JsSymbol {
    type V = (usize, Seq<char>);

    closed spec fn view(&self) -> (usize, Seq<char>) {
        (self.id, self.description@)
    }
}

/// The source of symbol ids: it hands out each id once, counting up from 1.
pub(crate) struct SymbolIds {
    next: usize,
}

impl View for SymbolIds {
    type V = int;

    /// The id handed out next.
    closed spec fn view(&self) -> int {
        self.next as int
    }
}

impl SymbolIds {
    #[verifier::type_invariant]
    closed spec fn starts_at_one(self) -> bool {
        self.next >= 1
    }

    /// A source whose first id is 1.
    pub(crate) fn new() -> (ids: SymbolIds)
        ensures
            ids@ == 1,
    {
        SymbolIds { next: 1 }
    }

    /// The id handed out next; never 0.
    pub(crate) fn peek(&self) -> (id: usize)
        ensures
            id == self@,
            id >= 1,
    {
        proof {
            use_type_invariant(self);
        }
        self.next
    }
}

impl JsSymbol {
    /// Makes a symbol with the next id of `ids`: ids are fresh, increasing
    /// and never 0.
    pub(crate) fn new(ids: &mut SymbolIds, description: String) -> (symbol: Rc<JsSymbol>)
        requires
            old(ids)@ < usize::MAX,
        ensures
            symbol@ == (old(ids)@ as usize, description@),
            symbol@.0 >= 1,
            final(ids)@ == old(ids)@ + 1,
    {
        proof {
            use_type_invariant(&*ids);
        }
        let id = ids.next;
        ids.next = id + 1;
        Rc::new(JsSymbol { id, description })
    }
}

/// The ids that `count` calls of `JsSymbol::new` hand out, in order, from a
/// source whose next id is `start`.
pub open spec fn ids_handed_out(start: int, count: nat) -> Seq<int> {
    Seq::new(count, |i: int| start + i)
}

/// Ids are fresh: the ids that a source hands out are at least 1 and
/// strictly increasing, so none is handed out twice.
pub proof fn lemma_ids_fresh(start: int, count: nat)
    requires
        start >= 1,
    ensures
        forall|i: int, j: int|
            0 <= i < j < count ==> 1 <= #[trigger] ids_handed_out(start, count)[i]
                < #[trigger] ids_handed_out(start, count)[j],
{
}

/// The id of a symbol.
pub fn purust_symbol_id(symbol: &Rc<JsSymbol>) -> (id: usize)
    ensures
        id == symbol@.0,
{
    symbol.id
}

/// The description of a symbol.
pub fn purust_symbol_description(symbol: &Rc<JsSymbol>) -> (description: &str)
    ensures
        description@ == symbol@.1,
{
    symbol.description.as_str()
}

/// The symbol that a value boxes, if it boxes one.
pub open spec fn symbol_of<V>(value: Value<V>) -> Option<Rc<JsSymbol>> {
    match value {
        Value::Symbol(symbol) => Some(symbol),
        _ => None,
    }
}

/// Boxes a symbol as a runtime value.
pub fn purust_symbol_box<V>(symbol: Rc<JsSymbol>) -> (value: Value<V>)
    ensures
        value == Value::<V>::Symbol(symbol),
{
    Value::Symbol(symbol)
}

/// The symbol boxed in a value, or `None` for any other value.
pub fn purust_symbol_unbox<V>(value: &Value<V>) -> (symbol: Option<Rc<JsSymbol>>)
    ensures
        symbol == symbol_of(*value),
{
    match value {
        Value::Symbol(symbol) => Some(rc_clone(symbol)),
        _ => None,
    }
}

/// `Symbol(description)`, the way a symbol is shown.
pub open spec fn shown(symbol: (usize, Seq<char>)) -> Seq<char> {
    "Symbol("@ + symbol.1 + ")"@
}

/// The shown text of a symbol is `Symbol(`, then its whole description,
/// then `)`.
pub proof fn lemma_shown_holds_whole_description(symbol: (usize, Seq<char>))
    ensures
        shown(symbol).len() == symbol.1.len() + 8,
        shown(symbol).subrange(0, 7) == seq!['S', 'y', 'm', 'b', 'o', 'l', '('],
        shown(symbol).subrange(7, 7 + symbol.1.len() as int) == symbol.1,
        shown(symbol).last() == ')',
{
    reveal_strlit("Symbol(");
    reveal_strlit(")");
    let t = shown(symbol);
    assert(t.subrange(0, 7) =~= seq!['S', 'y', 'm', 'b', 'o', 'l', '(']);
    assert(t.subrange(7, 7 + symbol.1.len() as int) =~= symbol.1);
}

/// Shows a boxed symbol as `Symbol(description)`.
pub fn show_symbol<V>(value: &Value<V>) -> (text: String)
    requires
        symbol_of(*value) is Some,
    ensures
        text@ == shown(symbol_of(*value).unwrap()@),
        text@ == "Symbol("@ + symbol_of(*value).unwrap()@.1 + ")"@,
{
    let symbol = purust_symbol_unbox(value).unwrap();
    let mut text = String::new();
    text.append("Symbol(");
    text.append(purust_symbol_description(&symbol));
    text.append(")");
    text
}

/// What a registry holds: the next id to hand out, and each registered key
/// with its symbol, in registration order.
pub struct RegistryView {
    pub next_id: int,
    pub entries: Seq<(Seq<char>, (usize, Seq<char>))>,
}

/// A registry is well formed when its keys are distinct, its ids are distinct
/// and below the next id, and each symbol is described by its key.
pub open spec fn registry_wf(r: RegistryView) -> bool {
    &&& 1 <= r.next_id <= usize::MAX
    &&& forall|i: int|
        0 <= i < r.entries.len() ==> {
            &&& (#[trigger] r.entries[i]).1.0 < r.next_id
            &&& r.entries[i].1.1 == r.entries[i].0
        }
    &&& forall|i: int, j: int|
        0 <= i < r.entries.len() && 0 <= j < r.entries.len() && i != j ==> {
            &&& (#[trigger] r.entries[i]).0 != (#[trigger] r.entries[j]).0
            &&& r.entries[i].1.0 != r.entries[j].1.0
        }
}

/// Whether `key` is registered.
pub open spec fn has_key(r: RegistryView, key: Seq<char>) -> bool {
    exists|i: int| 0 <= i < r.entries.len() && (#[trigger] r.entries[i]).0 == key
}

/// The index at which `key` is registered.
pub open spec fn key_index(r: RegistryView, key: Seq<char>) -> int {
    choose|i: int| 0 <= i < r.entries.len() && (#[trigger] r.entries[i]).0 == key
}

/// `Symbol.for(key)`: the registry afterwards and the symbol handed out. A
/// registered key gives its symbol back; a new key gets a symbol with the
/// next id, described by the key, and is registered.
pub open spec fn for_key_result(r: RegistryView, key: Seq<char>) -> (
    RegistryView,
    (usize, Seq<char>),
) {
    if has_key(r, key) {
        (r, r.entries[key_index(r, key)].1)
    } else {
        let symbol = (r.next_id as usize, key);
        (RegistryView { next_id: r.next_id + 1, entries: r.entries.push((key, symbol)) }, symbol)
    }
}

/// Whether some registered symbol has the id `id`.
pub open spec fn has_id(r: RegistryView, id: usize) -> bool {
    exists|i: int| 0 <= i < r.entries.len() && (#[trigger] r.entries[i]).1.0 == id
}

/// `Symbol.keyFor`: the key under which the symbol with id `id` is registered.
pub open spec fn key_for_id(r: RegistryView, id: usize) -> Option<Seq<char>> {
    if has_id(r, id) {
        Some(
            r.entries[choose|i: int|
                0 <= i < r.entries.len() && (#[trigger] r.entries[i]).1.0 == id].0,
        )
    } else {
        None
    }
}

/// The registry of `Symbol.for`: registered symbols are interned per key.
pub struct SymbolRegistry {
    ids: SymbolIds,
    entries: Vec<(String, Rc<JsSymbol>)>,
}

impl View for SymbolRegistry {
    type V = RegistryView;

    closed spec fn view(&self) -> RegistryView {
        RegistryView {
            next_id: self.ids@,
            entries: self.entries@.map_values(|e: (String, Rc<JsSymbol>)| (e.0@, e.1@)),
        }
    }
}

impl SymbolRegistry {
    #[verifier::type_invariant]
    closed spec fn well_formed(self) -> bool {
        registry_wf(self@)
    }

    /// An empty registry whose first symbol gets the id 1.
    pub fn new() -> (registry: SymbolRegistry)
        ensures
            registry@ == (RegistryView { next_id: 1, entries: Seq::empty() }),
            registry_wf(registry@),
    {
        let registry = SymbolRegistry { ids: SymbolIds::new(), entries: Vec::new() };
        assert(registry@.entries =~= Seq::empty());
        registry
    }

    /// The index of `key` among the entries, if it is registered.
    fn find_key(&self, key: &String) -> (index: Option<usize>)
        requires
            registry_wf(self@),
        ensures
            match index {
                Some(i) => i < self@.entries.len() && self@.entries[i as int].0 == key@,
                None => !has_key(self@, key@),
            },
    {
        let mut i: usize = 0;
        while i < self.entries.len()
            invariant
                0 <= i <= self.entries@.len(),
                self@.entries.len() == self.entries@.len(),
                forall|j: int| 0 <= j < i ==> (#[trigger] self@.entries[j]).0 != key@,
            decreases self.entries.len() - i,
        {
            if self.entries[i].0 == *key {
                return Some(i);
            }
            i = i + 1;
        }
        None
    }

    /// The id that the next new symbol gets.
    pub fn next_id(&self) -> (id: usize)
        ensures
            id == self@.next_id,
            registry_wf(self@),
    {
        proof {
            use_type_invariant(self);
        }
        self.ids.peek()
    }

    /// Whether `key` is registered.
    pub fn contains_key(&self, key: &String) -> (found: bool)
        ensures
            found == has_key(self@, key@),
            registry_wf(self@),
    {
        proof {
            use_type_invariant(self);
        }
        self.find_key(key).is_some()
    }

    /// `Symbol.for(key)`: the symbol registered under `key`, registering a
    /// new one first when there is none.
    pub fn for_key(&mut self, key: String) -> (symbol: Rc<JsSymbol>)
        requires
            !has_key(old(self)@, key@) ==> old(self)@.next_id < usize::MAX,
        ensures
            registry_wf(old(self)@),
            registry_wf(final(self)@),
            (final(self)@, symbol@) == for_key_result(old(self)@, key@),
    {
        proof {
            use_type_invariant(&*self);
        }
        match self.find_key(&key) {
            Some(i) => {
                let ghost r = self@;
                assert(r.entries[key_index(r, key@)].0 == key@);
                assert(key_index(r, key@) == i);
                rc_clone(&self.entries[i].1)
            },
            None => {
                let ghost r = self@;
                let mut entries: Vec<(String, Rc<JsSymbol>)> = Vec::new();
                std::mem::swap(&mut entries, &mut self.entries);
                let mut ids = SymbolIds::new();
                std::mem::swap(&mut ids, &mut self.ids);
                let symbol = JsSymbol::new(&mut ids, key.clone());
                entries.push((key, rc_clone(&symbol)));
                let ghost grown = RegistryView {
                    next_id: ids@,
                    entries: entries@.map_values(|e: (String, Rc<JsSymbol>)| (e.0@, e.1@)),
                };
                assert(grown.entries =~= r.entries.push((key@, symbol@)));
                assert(registry_wf(grown)) by {
                    assert(forall|i: int| 0 <= i < r.entries.len() ==> (#[trigger] r.entries[i]).0 != key@);
                    assert forall|i: int| 0 <= i < grown.entries.len() implies {
                        &&& (#[trigger] grown.entries[i]).1.0 < grown.next_id
                        &&& grown.entries[i].1.1 == grown.entries[i].0
                    } by {
                        if i < r.entries.len() {
                            assert(grown.entries[i] == r.entries[i]);
                        }
                    }
                    assert forall|i: int, j: int|
                        0 <= i < grown.entries.len() && 0 <= j < grown.entries.len() && i != j implies {
                        &&& (#[trigger] grown.entries[i]).0 != (#[trigger] grown.entries[j]).0
                        &&& grown.entries[i].1.0 != grown.entries[j].1.0
                    } by {
                        if i < r.entries.len() {
                            assert(grown.entries[i] == r.entries[i]);
                        }
                        if j < r.entries.len() {
                            assert(grown.entries[j] == r.entries[j]);
                        }
                    }
                }
                *self = SymbolRegistry { ids, entries };
                symbol
            },
        }
    }

    /// `Symbol.keyFor(value)`: the key under which the symbol that `value`
    /// boxes is registered; `None` when it is not registered or `value` is no
    /// symbol.
    pub fn key_for<V>(&self, value: &Value<V>) -> (key: Option<String>)
        ensures
            key.deep_view() == match symbol_of(*value) {
                Some(symbol) => key_for_id(self@, symbol@.0),
                None => None,
            },
            registry_wf(self@),
    {
        proof {
            use_type_invariant(self);
        }
        match purust_symbol_unbox(value) {
            None => None,
            Some(symbol) => {
                let id = purust_symbol_id(&symbol);
                let mut i: usize = 0;
                while i < self.entries.len()
                    invariant
                        0 <= i <= self.entries@.len(),
                        self@.entries.len() == self.entries@.len(),
                        registry_wf(self@),
                        id == symbol@.0,
                        symbol_of(*value) == Some(symbol),
                        forall|j: int| 0 <= j < i ==> (#[trigger] self@.entries[j]).1.0 != id,
                    decreases self.entries.len() - i,
                {
                    if purust_symbol_id(&self.entries[i].1) == id {
                        let ghost r = self@;
                        let ghost c = choose|j: int|
                            0 <= j < r.entries.len() && (#[trigger] r.entries[j]).1.0 == id;
                        assert(r.entries[i as int].1.0 == id);
                        assert(c == i);
                        return Some(self.entries[i].0.clone());
                    }
                    i = i + 1;
                }
                None
            },
        }
    }
}

/// `Symbol.for` keeps the registry well formed.
pub proof fn lemma_for_key_keeps_registry_wf(r: RegistryView, key: Seq<char>)
    requires
        registry_wf(r),
        !has_key(r, key) ==> r.next_id < usize::MAX,
    ensures
        registry_wf(for_key_result(r, key).0),
{
    if !has_key(r, key) {
        let r1 = for_key_result(r, key).0;
        assert forall|i: int| 0 <= i < r.entries.len() implies (#[trigger] r.entries[i]).0 != key by {
        }
        assert forall|i: int, j: int|
            0 <= i < r1.entries.len() && 0 <= j < r1.entries.len() && i != j implies {
            &&& (#[trigger] r1.entries[i]).0 != (#[trigger] r1.entries[j]).0
            &&& r1.entries[i].1.0 != r1.entries[j].1.0
        } by {
            if i < r.entries.len() {
                assert(r1.entries[i] == r.entries[i]);
            }
            if j < r.entries.len() {
                assert(r1.entries[j] == r.entries[j]);
            }
        }
        assert forall|i: int| 0 <= i < r1.entries.len() implies {
            &&& (#[trigger] r1.entries[i]).1.0 < r1.next_id
            &&& r1.entries[i].1.1 == r1.entries[i].0
        } by {
            if i < r.entries.len() {
                assert(r1.entries[i] == r.entries[i]);
            }
        }
    }
}

/// `Symbol.for` interns: after `Symbol.for(key)` the key is registered, and
/// asking again gives the same symbol and leaves the registry as it is.
pub proof fn lemma_for_key_interns(r: RegistryView, key: Seq<char>)
    requires
        registry_wf(r),
        !has_key(r, key) ==> r.next_id < usize::MAX,
    ensures
        ({
            let (r1, symbol) = for_key_result(r, key);
            &&& has_key(r1, key)
            &&& r1.entries[key_index(r1, key)].1 == symbol
            &&& for_key_result(r1, key) == (r1, symbol)
        }),
{
    let (r1, symbol) = for_key_result(r, key);
    if has_key(r, key) {
        let i = key_index(r, key);
        assert(r.entries[i].0 == key);
    } else {
        let n = r.entries.len() as int;
        assert(r1.entries[n].0 == key);
        assert(has_key(r1, key));
        let i = key_index(r1, key);
        if i < n {
            assert(r.entries[i] == r1.entries[i]);
            assert(has_key(r, key));
        }
        assert(i == n);
    }
}

/// `Symbol.keyFor(Symbol.for(key))` is `key`.
pub proof fn lemma_key_for_after_for(r: RegistryView, key: Seq<char>)
    requires
        registry_wf(r),
        !has_key(r, key) ==> r.next_id < usize::MAX,
    ensures
        key_for_id(for_key_result(r, key).0, for_key_result(r, key).1.0) == Some(key),
{
    let (r1, symbol) = for_key_result(r, key);
    lemma_for_key_interns(r, key);
    lemma_for_key_keeps_registry_wf(r, key);
    let i = key_index(r1, key);
    assert(r1.entries[i].0 == key);
    assert(r1.entries[i].1.0 == symbol.0);
    assert(has_id(r1, symbol.0));
    let j = choose|j: int| 0 <= j < r1.entries.len() && (#[trigger] r1.entries[j]).1.0 == symbol.0;
    if j != i {
        assert(r1.entries[i].1.0 != r1.entries[j].1.0);
    }
}

/// Different keys give different symbols.
pub proof fn lemma_for_key_distinct(r: RegistryView, first: Seq<char>, second: Seq<char>)
    requires
        registry_wf(r),
        first != second,
        !has_key(r, first) ==> r.next_id < usize::MAX,
        !has_key(r, second) ==> r.next_id + if has_key(r, first) { 0int } else { 1int }
            < usize::MAX,
    ensures
        ({
            let (r1, s1) = for_key_result(r, first);
            for_key_result(r1, second).1.0 != s1.0
        }),
{
    let (r1, s1) = for_key_result(r, first);
    lemma_for_key_keeps_registry_wf(r, first);
    lemma_for_key_interns(r, first);
    lemma_for_key_extends(r, first);
    if has_key(r1, second) && !has_key(r, second) {
        let j = key_index(r1, second);
        if j < r.entries.len() {
            assert(r.entries[j] == r1.entries[j]);
        }
    }
    let i = key_index(r1, first);
    assert(r1.entries[i].0 == first);
    if has_key(r1, second) {
        let j = key_index(r1, second);
        assert(r1.entries[j].0 == second);
        assert(i != j);
    } else {
        assert(r1.entries[i].1.0 < r1.next_id);
    }
}

/// `Symbol.for` over each of `keys` in turn.
pub open spec fn for_keys_result(r: RegistryView, keys: Seq<Seq<char>>) -> RegistryView
    decreases keys.len(),
{
    if keys.len() == 0 {
        r
    } else {
        for_key_result(for_keys_result(r, keys.drop_last()), keys.last()).0
    }
}

/// `Symbol.for` only adds: the registered keys and symbols stay, at their
/// places, and the next id grows by at most one.
pub proof fn lemma_for_key_extends(r: RegistryView, key: Seq<char>)
    ensures
        ({
            let r1 = for_key_result(r, key).0;
            &&& r.entries.len() <= r1.entries.len()
            &&& r1.entries.take(r.entries.len() as int) == r.entries
            &&& r.next_id <= r1.next_id <= r.next_id + 1
        }),
{
    let r1 = for_key_result(r, key).0;
    assert(r1.entries.take(r.entries.len() as int) =~= r.entries);
}

/// A run of `Symbol.for` calls keeps the registry well formed and only adds
/// to it.
pub proof fn lemma_for_keys_extend(r: RegistryView, keys: Seq<Seq<char>>)
    requires
        registry_wf(r),
        r.next_id + keys.len() < usize::MAX,
    ensures
        ({
            let r1 = for_keys_result(r, keys);
            &&& registry_wf(r1)
            &&& r.entries.len() <= r1.entries.len()
            &&& r1.entries.take(r.entries.len() as int) == r.entries
            &&& r.next_id <= r1.next_id <= r.next_id + keys.len()
        }),
    decreases keys.len(),
{
    if keys.len() > 0 {
        let dl = keys.drop_last();
        lemma_for_keys_extend(r, dl);
        let r0 = for_keys_result(r, dl);
        lemma_for_key_keeps_registry_wf(r0, keys.last());
        lemma_for_key_extends(r0, keys.last());
        let r1 = for_keys_result(r, keys);
        assert(r1.entries.take(r.entries.len() as int) =~= r.entries) by {
            assert forall|i: int| 0 <= i < r.entries.len() implies r1.entries[i] == r.entries[i] by {
                assert(r1.entries.take(r0.entries.len() as int)[i] == r0.entries[i]);
                assert(r0.entries.take(r.entries.len() as int)[i] == r.entries[i]);
            }
        }
    }
}

/// `Symbol.keyFor(Symbol.for(key))` is `key`, whatever other `Symbol.for`
/// calls come in between.
pub proof fn lemma_key_for_undoes_for(r: RegistryView, key: Seq<char>, between: Seq<Seq<char>>)
    requires
        registry_wf(r),
        r.next_id + between.len() + 1 < usize::MAX,
    ensures
        ({
            let (r1, symbol) = for_key_result(r, key);
            key_for_id(for_keys_result(r1, between), symbol.0) == Some(key)
        }),
{
    let (r1, symbol) = for_key_result(r, key);
    lemma_for_key_keeps_registry_wf(r, key);
    lemma_for_key_interns(r, key);
    lemma_key_for_after_for(r, key);
    lemma_for_keys_extend(r1, between);
    let r2 = for_keys_result(r1, between);
    let i = key_index(r1, key);
    assert(r2.entries[i] == r1.entries[i]) by {
        assert(r2.entries.take(r1.entries.len() as int)[i] == r1.entries[i]);
    }
    assert(r2.entries[i].1.0 == symbol.0);
    let j = choose|j: int| 0 <= j < r2.entries.len() && (#[trigger] r2.entries[j]).1.0 == symbol.0;
    if j != i {
        assert(r2.entries[i].1.0 != r2.entries[j].1.0);
    }
}

/// `Symbol.for(key)` gives the same symbol every time, whatever other
/// `Symbol.for` calls come in between.
pub proof fn lemma_for_key_interns_later(r: RegistryView, key: Seq<char>, between: Seq<Seq<char>>)
    requires
        registry_wf(r),
        r.next_id + between.len() + 1 < usize::MAX,
    ensures
        ({
            let (r1, symbol) = for_key_result(r, key);
            let r2 = for_keys_result(r1, between);
            for_key_result(r2, key) == (r2, symbol)
        }),
{
    let (r1, symbol) = for_key_result(r, key);
    lemma_for_key_keeps_registry_wf(r, key);
    lemma_for_key_interns(r, key);
    lemma_for_keys_extend(r1, between);
    let r2 = for_keys_result(r1, between);
    let i = key_index(r1, key);
    assert(r2.entries[i] == r1.entries[i]) by {
        assert(r2.entries.take(r1.entries.len() as int)[i] == r1.entries[i]);
    }
    assert(has_key(r2, key));
    let j = key_index(r2, key);
    if j != i {
        assert(r2.entries[i].0 != r2.entries[j].0);
    }
}

/// A symbol made outside the registry, with an id it has not handed out yet,
/// has no key.
pub proof fn lemma_unregistered_has_no_key(r: RegistryView, id: usize)
    requires
        registry_wf(r),
        id >= r.next_id,
    ensures
        key_for_id(r, id) is None,
{
    if has_id(r, id) {
        let i = choose|i: int| 0 <= i < r.entries.len() && (#[trigger] r.entries[i]).1.0 == id;
        assert(r.entries[i].1.0 < r.next_id);
    }
}

/// Unboxing a boxed symbol gives the symbol back.
pub proof fn lemma_unbox_box<V>(symbol: Rc<JsSymbol>)
    ensures
        symbol_of(Value::<V>::Symbol(symbol)) == Some(symbol),
{
}

} // verus!
