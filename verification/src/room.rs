//! The room that vectors have allocated.
//!
//! How much an allocator gives is its own affair, so nothing here says more
//! of it than that it is enough.

use vstd::prelude::*;

verus! {

/// Whether so many items of a type are within what can be allocated at all.
pub open spec fn allocatable<T>(n: int) -> bool {
    n * vstd::layout::size_of::<T>() <= isize::MAX
}

/// `Vec::capacity` says how many items a vector has room for, which is never
/// less than it holds. How much more is not said: the allocator decides.
#[verifier::external_body]
pub(crate) fn capacity<T>(v: &Vec<T>) -> (n: usize)
    ensures
        n >= v@.len(),
{
    v.capacity()
}

/// `Vec::reserve_exact` makes room for more items, and leaves those that a
/// vector holds as they are. It panics where the items could not be
/// allocated at all.
#[verifier::external_body]
pub(crate) fn reserve_exact<T>(v: &mut Vec<T>, additional: usize)
    requires
        allocatable::<T>(old(v)@.len() + additional),
    ensures
        final(v)@ == old(v)@,
{
    v.reserve_exact(additional)
}

/// `Vec::shrink_to_fit` gives room back, and leaves the items as they are.
#[verifier::external_body]
pub(crate) fn shrink_to_fit<T>(v: &mut Vec<T>)
    ensures
        final(v)@ == old(v)@,
{
    v.shrink_to_fit()
}

/// `Vec::into_boxed_slice` keeps the items of a vector and none of its room
/// to spare.
#[verifier::external_body]
pub(crate) fn boxed<T>(v: Vec<T>) -> (b: Box<[T]>)
    ensures
        b@ == v@,
{
    v.into_boxed_slice()
}

/// Makes room for exactly so many more items, where that can be allocated.
pub(crate) fn make_room<T>(v: &mut Vec<T>, additional: usize)
    ensures
        final(v)@ == old(v)@,
{
    let slot = core::mem::size_of::<T>() as u128;
    let n = v.len() as u128 + additional as u128;
    if slot == 0 || n <= isize::MAX as u128 / slot {
        proof {
            let size = vstd::layout::size_of::<T>() as int;
            let most = isize::MAX as int;
            assert(n * size <= most) by (nonlinear_arith)
                requires
                    size >= 0,
                    n >= 0,
                    most >= 0,
                    size == 0 || n <= most / size,
            ;
        }
        reserve_exact(v, additional);
    }
}

} // verus!
