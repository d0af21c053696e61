# purs_node

Node-style event emitters and JavaScript symbols for a PureScript runtime,
with their behaviour stated in Verus contracts and proved.

- `src/event_emitter.rs`: event keys, the listener list of an emitter
  (registration order, `once`, prepend, removal by callback identity), the
  `newListener` / `removeListener` notices, `eventNames`, listener counts,
  the listener limit and attached data; laws about emitting, registering
  and removing.
- `src/symbol.rs`: symbols, their boxing, `Symbol.for` / `Symbol.keyFor`
  over an interning registry, and laws about interning.
- `src/value.rs`: the runtime values the library reads, and `symbolOrStr`.
- `src/callback.rs`: which emitted arguments a listener receives, and the
  identity by which `off` finds a callback.
- `src/shared.rs`: the one trusted item, a wrapper of `Rc::clone`.
- `app/`: the foreign-function layer for the runtime: value conversion,
  shared handles and locks, calling listeners and the listen hook.
