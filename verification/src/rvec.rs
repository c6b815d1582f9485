//! The small vector that carries command arguments.
use vstd::prelude::*;
use smallvec::SmallVec;

verus! {

/// Inline capacity of the small vectors that carry command arguments.
pub const DEFAULT_SMALL_VEC_SIZE: usize = 2;

/// A vector that keeps up to `DEFAULT_SMALL_VEC_SIZE` items inline.
#[verifier::external_body]
#[verifier::reject_recursive_types(T)]
pub struct RVec<T> {
    items: SmallVec<[T; DEFAULT_SMALL_VEC_SIZE]>,
}

/// The items of a small vector of byte strings, in order.
pub uninterp spec fn rvec_bytes_items(v: RVec<Vec<u8>>) -> Seq<Vec<u8>>;

/// `SmallVec::from_vec`: the small vector holds the items of `v`, in order.
#[verifier::external_body]
pub(crate) fn rvec_bytes_from_vec(v: Vec<Vec<u8>>) -> (r: RVec<Vec<u8>>)
    ensures
        rvec_bytes_items(r) == v@,
{
    RVec { items: SmallVec::from_vec(v) }
}

/// `SmallVec::into_vec`: the vector holds the items of `v`, in order.
#[verifier::external_body]
pub(crate) fn rvec_bytes_into_vec(v: RVec<Vec<u8>>) -> (r: Vec<Vec<u8>>)
    ensures
        r@ == rvec_bytes_items(v),
{
    v.items.into_vec()
}

/// The items of a small vector of key/value pairs, in order.
pub uninterp spec fn rvec_pair_items(v: RVec<(Vec<u8>, Vec<u8>)>) -> Seq<(Vec<u8>, Vec<u8>)>;

/// `SmallVec::from_vec`: the small vector holds the items of `v`, in order.
#[verifier::external_body]
pub(crate) fn rvec_pairs_from_vec(v: Vec<(Vec<u8>, Vec<u8>)>) -> (r: RVec<(Vec<u8>, Vec<u8>)>)
    ensures
        rvec_pair_items(r) == v@,
{
    RVec { items: SmallVec::from_vec(v) }
}

/// `SmallVec::into_vec`: the vector holds the items of `v`, in order.
#[verifier::external_body]
pub(crate) fn rvec_pairs_into_vec(v: RVec<(Vec<u8>, Vec<u8>)>) -> (r: Vec<(Vec<u8>, Vec<u8>)>)
    ensures
        r@ == rvec_pair_items(v),
{
    v.items.into_vec()
}

/// The items of a small vector of score/key pairs, in order.
pub uninterp spec fn rvec_scored_items(v: RVec<(i64, Vec<u8>)>) -> Seq<(i64, Vec<u8>)>;

/// `SmallVec::from_vec`: the small vector holds the items of `v`, in order.
#[verifier::external_body]
pub(crate) fn rvec_scored_from_vec(v: Vec<(i64, Vec<u8>)>) -> (r: RVec<(i64, Vec<u8>)>)
    ensures
        rvec_scored_items(r) == v@,
{
    RVec { items: SmallVec::from_vec(v) }
}

/// `SmallVec::into_vec`: the vector holds the items of `v`, in order.
#[verifier::external_body]
pub(crate) fn rvec_scored_into_vec(v: RVec<(i64, Vec<u8>)>) -> (r: Vec<(i64, Vec<u8>)>)
    ensures
        r@ == rvec_scored_items(v),
{
    v.items.into_vec()
}

/// A small vector of the byte strings of `v`, in order.
pub fn values_rvec(v: Vec<Vec<u8>>) -> (r: RVec<Vec<u8>>)
    ensures
        rvec_bytes_items(r) == v@,
{
    rvec_bytes_from_vec(v)
}

/// The byte strings of `r`, in order.
pub fn rvec_values(r: RVec<Vec<u8>>) -> (v: Vec<Vec<u8>>)
    ensures
        v@ == rvec_bytes_items(r),
{
    rvec_bytes_into_vec(r)
}

/// A small vector of the key/value pairs of `v`, in order.
pub fn pairs_rvec(v: Vec<(Vec<u8>, Vec<u8>)>) -> (r: RVec<(Vec<u8>, Vec<u8>)>)
    ensures
        rvec_pair_items(r) == v@,
{
    rvec_pairs_from_vec(v)
}

/// The key/value pairs of `r`, in order.
pub fn rvec_pairs(r: RVec<(Vec<u8>, Vec<u8>)>) -> (v: Vec<(Vec<u8>, Vec<u8>)>)
    ensures
        v@ == rvec_pair_items(r),
{
    rvec_pairs_into_vec(r)
}

/// A small vector of the score/key pairs of `v`, in order.
pub fn scored_rvec(v: Vec<(i64, Vec<u8>)>) -> (r: RVec<(i64, Vec<u8>)>)
    ensures
        rvec_scored_items(r) == v@,
{
    rvec_scored_from_vec(v)
}

/// The score/key pairs of `r`, in order.
pub fn rvec_scored(r: RVec<(i64, Vec<u8>)>) -> (v: Vec<(i64, Vec<u8>)>)
    ensures
        v@ == rvec_scored_items(r),
{
    rvec_scored_into_vec(r)
}

} // verus!
