use vstd::prelude::*;

verus! {

/// `fastrand::choice` picks an item of the list at random, and `None` only when the list
/// is empty. Which item comes out depends on the generator's state, so only that it is
/// one of the list's items is stated.
#[verifier::external_body]
pub(crate) fn random_choice<T>(items: Vec<T>) -> (r: Option<T>)
    ensures
        r is None <==> items@.len() == 0,
        r matches Some(x) ==> items@.contains(x),
{
    fastrand::choice(items)
}

} // verus!
