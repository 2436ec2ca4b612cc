//! Initialization helper for filled, fixed-length storage.
use vstd::prelude::*;

verus! {

/// Build a vector of `n` slots, initializing each slot with a fresh
/// element produced by `make`. This stands in for instantiating a
/// fixed-size array of repeated elements whose type is not `Copy`.
pub fn array_init<T, F: Fn() -> T>(make: F, n: usize) -> (arr: Vec<T>)
    requires
        call_requires(make, ()),
    ensures
        arr@.len() == n,
        forall|i: int| 0 <= i < n ==> call_ensures(make, (), #[trigger] arr@[i]),
{
    let mut arr: Vec<T> = Vec::new();
    while arr.len() < n
        invariant
            call_requires(make, ()),
            arr@.len() <= n,
            forall|i: int| 0 <= i < arr@.len() ==> call_ensures(make, (), #[trigger] arr@[i]),
        decreases n - arr@.len(),
    {
        let element = make();
        arr.push(element);
    }
    arr
}

} // verus!
