//! The trusted boundary around `core::any`: type identifiers and type-erased
//! holders of a single value.
//!
//! Everything the rest of the crate knows about type identity and type
//! erasure is what the contracts here state. Each executable item wraps
//! exactly one call into `core::any` (or builds the box that carries it) and
//! is believed, not verified. To the verifier an identifier or a holder is an
//! opaque value; the store's contracts therefore hold for whatever values
//! these calls return, and the equality test below is the one fact the
//! verified map logic rests on.

use vstd::prelude::*;

verus! {

/// `core::any::TypeId`, kept opaque: the identifier that a `'static` type
/// determines, stable for the lifetime of the process.
#[verifier::external_type_specification]
#[verifier::external_body]
pub struct ExTypeId(core::any::TypeId);

/// Relies on `core::any::TypeId::of`. Within one process the call returns
/// the same identifier for the same `T` and distinct identifiers for
/// distinct types; no contract states this, so every caller is verified for
/// an arbitrary identifier.
#[verifier::external_body]
pub(crate) fn key_of<T: 'static>() -> core::any::TypeId {
    core::any::TypeId::of::<T>()
}

/// Relies on the `PartialEq` of `core::any::TypeId`: two identifiers compare
/// equal exactly when they are the same identifier.
#[verifier::external_body]
pub(crate) fn same_key(a: &core::any::TypeId, b: &core::any::TypeId) -> (r: bool)
    ensures
        r == (a == b),
{
    a == b
}

/// A type-erased holder owning exactly one value of one `'static` type. The
/// `Box<dyn Any>` inside is opaque to the verifier, which sees a holder only
/// as a value with an identity.
#[verifier::external_body]
pub struct ErasedBox {
    inner: Box<dyn core::any::Any>,
}

/// Relies on `Box::new`: the new holder owns exactly the value `v`, which
/// only a recovery at the type `T` hands back.
#[verifier::external_body]
pub(crate) fn erase<T: 'static>(v: T) -> ErasedBox {
    ErasedBox { inner: Box::new(v) }
}

/// Relies on `<dyn Any>::downcast_ref`: it returns a reference to the held
/// value exactly when that value has type `T`, and nothing otherwise.
#[verifier::external_body]
pub(crate) fn recover_ref<'a, T: 'static>(b: &'a ErasedBox) -> Option<&'a T> {
    b.inner.downcast_ref::<T>()
}

/// Relies on `<dyn Any>::downcast_mut`: it returns a reference to the held
/// value exactly when that value has type `T`. A miss touches nothing, and
/// what is written through a returned reference is what the holder owns
/// afterwards.
#[verifier::external_body]
pub(crate) fn recover_mut<'a, T: 'static>(b: &'a mut ErasedBox) -> (r: Option<&'a mut T>)
    ensures
        r is None ==> *final(b) == *old(b),
{
    b.inner.downcast_mut::<T>()
}

/// Relies on `Box::<dyn Any>::downcast`: it returns ownership of the held
/// value exactly when that value has type `T`; otherwise the holder comes
/// back in the error branch and is dropped.
#[verifier::external_body]
pub(crate) fn recover_owned<T: 'static>(b: ErasedBox) -> Option<T> {
    match b.inner.downcast::<T>() {
        Ok(v) => Some(*v),
        Err(_) => None,
    }
}

} // verus!
