use vstd::prelude::*;

use rand::rngs::ThreadRng;
use rand::seq::SliceRandom;
use rand::Rng;
use smallvec::SmallVec;

verus! {

/// rand's per-thread generator, carried through the library unopened.
#[verifier::external_type_specification]
#[verifier::external_body]
pub struct ExThreadRng(ThreadRng);

/// A short list of player indices, kept inline in a smallvec `SmallVec`.
#[verifier::external_body]
pub struct Indices {
    list: SmallVec<[usize; 10]>,
}

/// The indices the list holds, in order.
pub uninterp spec fn index_items(v: Indices) -> Seq<usize>;

/// Relies on rand::thread_rng: a handle on this thread's generator.
#[verifier::external_body]
pub(crate) fn thread_rng() -> ThreadRng {
    rand::thread_rng()
}

/// Relies on rand's Rng::gen_range over `0..n`: a value below `n`; it panics
/// only on an empty range.
#[verifier::external_body]
pub(crate) fn below(rng: &mut ThreadRng, n: usize) -> (r: usize)
    requires
        n > 0,
    ensures
        r < n,
{
    rng.gen_range(0..n)
}

/// Relies on smallvec's SmallVec::new: an empty list.
#[verifier::external_body]
pub(crate) fn empty_indices() -> (r: Indices)
    ensures
        index_items(r) == Seq::<usize>::empty(),
{
    Indices { list: SmallVec::new() }
}

/// Relies on smallvec's SmallVec::push: `x` is added at the end. It panics on
/// capacity overflow, past `usize::MAX / 2` items.
#[verifier::external_body]
pub(crate) fn push_index(v: &mut Indices, x: usize)
    requires
        index_items(*old(v)).len() < usize::MAX / 2,
    ensures
        index_items(*final(v)) == index_items(*old(v)).push(x),
{
    v.list.push(x)
}

/// Relies on smallvec's SmallVec::len: the number of items.
#[verifier::external_body]
pub(crate) fn indices_len(v: &Indices) -> (r: usize)
    ensures
        r == index_items(*v).len(),
{
    v.list.len()
}

/// Relies on rand's SliceRandom::choose over the items: one of them, at
/// random; it gives none only for an empty list.
#[verifier::external_body]
pub(crate) fn choose_index(v: &Indices, rng: &mut ThreadRng) -> (r: usize)
    requires
        index_items(*v).len() > 0,
    ensures
        index_items(*v).contains(r),
{
    *v.list.choose(rng).unwrap()
}

} // verus!
