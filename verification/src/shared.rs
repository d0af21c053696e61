use std::rc::Rc;
use vstd::prelude::*;

verus! {

/// Calls `Rc::clone`, which hands out another pointer to the same allocation.
/// The contract claims that the value seen through the new pointer is the
/// value seen through the old one (Verus models an `Rc` by its value).
#[verifier::external_body]
pub(crate) fn rc_clone<T>(rc: &Rc<T>) -> (res: Rc<T>)
    ensures
        res == *rc,
{
    Rc::clone(rc)
}

} // verus!
