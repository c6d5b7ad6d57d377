//! The calls this library makes into `rand`, `ahash` and `ndarray`.

use rand::rngs::Xoshiro256PlusPlus;
use vstd::prelude::*;

verus! {

/// `rand`'s xoshiro256++ generator, carried through the library opaquely.
#[verifier::external_type_specification]
#[verifier::external_body]
pub struct ExXoshiro256PlusPlus(Xoshiro256PlusPlus);

/// Draws the next 64-bit output of `rng` (`rand::Rng::next_u64`) and
/// advances its state. Nothing is claimed about the value: it depends on the
/// generator's hidden state.
#[verifier::external_body]
pub(crate) fn next_u64(rng: &mut Xoshiro256PlusPlus) -> (r: u64) {
    rand::Rng::next_u64(rng)
}

/// Hashes `x` with `ahash::RandomState::with_seeds(k0, k1, k2, k3).hash_one(x)`.
/// Nothing is claimed about the value: ahash documents that its outputs
/// differ between machines and versions.
#[verifier::external_body]
pub(crate) fn hash_with_seeds<H: core::hash::Hash>(k0: u64, k1: u64, k2: u64, k3: u64, x: H) -> (r:
    u64) {
    ahash::RandomState::with_seeds(k0, k1, k2, k3).hash_one(x)
}

/// A one-dimensional `ndarray` array of coefficients (`ndarray::Array1<i64>`),
/// held out of Verus's sight: Verus refuses a declaration of
/// `ndarray::ArrayBase`, whose element type is tied to its storage by a trait
/// bound. What it holds is named by [`array_contents`].
#[verifier::external_body]
#[derive(Debug)]
pub struct CoefficientArray {
    inner: ndarray::Array1<i64>,
}

impl Clone for CoefficientArray {
    /// `Clone` of the `ndarray` array: a copy holding the same elements.
    #[verifier::external_body]
    fn clone(&self) -> (c: Self)
        ensures
            array_contents(c) == array_contents(*self),
    {
        CoefficientArray { inner: self.inner.clone() }
    }
}

/// The coefficients that `a` holds, in index order.
pub uninterp spec fn array_contents(a: CoefficientArray) -> Seq<i64>;

/// `ndarray::Array1::from_vec`: the array holds the vector's elements, in
/// order (the vector is moved in, not copied).
#[verifier::external_body]
pub(crate) fn array_from_vec(v: Vec<i64>) -> (a: CoefficientArray)
    ensures
        array_contents(a) == v@,
{
    CoefficientArray { inner: ndarray::Array1::from_vec(v) }
}

/// Element `i` of `a` through `ndarray`'s `Index` impl, which panics past
/// the end; so `i` must be in range.
#[verifier::external_body]
pub(crate) fn array_get(a: &CoefficientArray, i: usize) -> (x: i64)
    requires
        i < array_contents(*a).len(),
    ensures
        x == array_contents(*a)[i as int],
{
    a.inner[i]
}

/// `to_vec` of a one-dimensional `ndarray` array: its elements, in order.
#[verifier::external_body]
pub(crate) fn array_to_vec(a: &CoefficientArray) -> (v: Vec<i64>)
    ensures
        v@ == array_contents(*a),
{
    a.inner.to_vec()
}

} // verus!
