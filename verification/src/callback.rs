use vstd::prelude::*;

verus! {

/// The shape of a runtime callback value: a function of one to five
/// arguments, or something else.
pub enum CallbackKind {
    Func1,
    Func2,
    Func3,
    Func4,
    Func5,
    NotAFunction,
}

/// How many arguments a listener of this kind takes: its own arity, and one
/// for anything that is not a function of two to five arguments.
pub open spec fn arity(kind: CallbackKind) -> int {
    match kind {
        CallbackKind::Func2 => 2,
        CallbackKind::Func3 => 3,
        CallbackKind::Func4 => 4,
        CallbackKind::Func5 => 5,
        _ => 1,
    }
}

/// The arguments that a listener is called with, by the listener's own
/// arity: slot `i` takes emitted argument `i`, or unit (`None`) when fewer
/// were emitted; extra emitted arguments are left out.
pub fn callback_arguments(kind: CallbackKind, emitted: usize) -> (slots: Vec<Option<usize>>)
    ensures
        slots@.len() == arity(kind),
        slots@.len() == match kind {
            CallbackKind::Func2 => 2int,
            CallbackKind::Func3 => 3int,
            CallbackKind::Func4 => 4int,
            CallbackKind::Func5 => 5int,
            _ => 1int,
        },
        forall|i: int|
            0 <= i < slots@.len() ==> #[trigger] slots@[i] == if i < emitted {
                Some(i as usize)
            } else {
                None
            },
{
    let count: usize = match kind {
        CallbackKind::Func2 => 2,
        CallbackKind::Func3 => 3,
        CallbackKind::Func4 => 4,
        CallbackKind::Func5 => 5,
        _ => 1,
    };
    let mut slots: Vec<Option<usize>> = Vec::new();
    let mut i: usize = 0;
    while i < count
        invariant
            0 <= i <= count,
            count == arity(kind),
            slots@.len() == i,
            forall|j: int|
                0 <= j < i ==> #[trigger] slots@[j] == if j < emitted {
                    Some(j as usize)
                } else {
                    None
                },
        decreases count - i,
    {
        if i < emitted {
            slots.push(Some(i));
        } else {
            slots.push(None);
        }
        i = i + 1;
    }
    slots
}

/// The identity by which `off` finds a callback again: the address of its
/// function for a function value, none for anything else.
pub fn callback_identity(kind: CallbackKind, address: usize) -> (identity: Option<usize>)
    ensures
        identity == match kind {
            CallbackKind::NotAFunction => None,
            _ => Some(address),
        },
{
    match kind {
        CallbackKind::NotAFunction => None,
        _ => Some(address),
    }
}

/// A listener takes as many arguments as it declares: two, three, four or
/// five for a function of that many arguments, one for anything else.
pub proof fn lemma_arity_by_kind()
    ensures
        arity(CallbackKind::Func1) == 1,
        arity(CallbackKind::Func2) == 2,
        arity(CallbackKind::Func3) == 3,
        arity(CallbackKind::Func4) == 4,
        arity(CallbackKind::Func5) == 5,
        arity(CallbackKind::NotAFunction) == 1,
{
}

/// Every emitted argument that a listener declares reaches it, at its own
/// position, and no slot takes an argument that was not emitted.
pub proof fn lemma_arguments_reach_listener(kind: CallbackKind, emitted: nat, slots: Seq<Option<usize>>)
    requires
        slots.len() == arity(kind),
        forall|i: int|
            0 <= i < slots.len() ==> #[trigger] slots[i] == if i < emitted {
                Some(i as usize)
            } else {
                None
            },
    ensures
        forall|i: int| 0 <= i < arity(kind) && i < emitted ==> #[trigger] slots[i] == Some(i as usize),
        forall|i: int| 0 <= i < slots.len() ==> (#[trigger] slots[i] is Some <==> i < emitted),
        kind is Func2 ==> slots.len() == 2,
        kind is Func3 ==> slots.len() == 3,
        kind is Func4 ==> slots.len() == 4,
        kind is Func5 ==> slots.len() == 5,
        !(kind is Func2 || kind is Func3 || kind is Func4 || kind is Func5) ==> slots.len() == 1,
{
}

} // verus!
