//! The store's laws, stated over its entry set and proved once for every
//! identifier and holder.
//!
//! [`crate::TypeMap`]'s contracts describe each operation as an operation on
//! a map from type identifier to erased holder. The proof functions here
//! state how those operations relate: what a fresh store answers, that the
//! last insertion under an identifier wins, that identifiers are mutually
//! independent, and what removal and clearing leave behind. Each holds for
//! every identifier and holder, so in particular for the identifiers of any
//! two distinct types, which within one process are distinct values.

use vstd::prelude::*;

use crate::erased::ErasedBox;

verus! {

/// On a fresh or just-cleared store no identifier is occupied: no type is
/// contained, and every view or removal comes back empty.
pub proof fn lemma_fresh_store_empty(k: core::any::TypeId)
    ensures
        !Map::<core::any::TypeId, ErasedBox>::empty().contains_key(k),
{
}

/// Filing twice under one identifier keeps only the later holder, and
/// exactly one entry exists under that identifier afterwards: the store is
/// as if only the second insertion had happened.
pub proof fn lemma_last_insert_wins(
    m: Map<core::any::TypeId, ErasedBox>,
    k: core::any::TypeId,
    b1: ErasedBox,
    b2: ErasedBox,
)
    ensures
        m.insert(k, b1).insert(k, b2) == m.insert(k, b2),
        m.insert(k, b1).insert(k, b2)[k] == b2,
        m.insert(k, b1).insert(k, b2).dom() == m.dom().insert(k),
{
    assert(m.insert(k, b1).insert(k, b2) =~= m.insert(k, b2));
    assert(m.insert(k, b1).insert(k, b2).dom() =~= m.dom().insert(k));
}

/// Identifiers are mutually independent: filing under one identifier
/// changes nothing under any other, so inserting a value of one type never
/// affects what is stored for a different type.
pub proof fn lemma_insert_isolation(
    m: Map<core::any::TypeId, ErasedBox>,
    k: core::any::TypeId,
    b: ErasedBox,
    other: core::any::TypeId,
)
    requires
        k != other,
    ensures
        m.insert(k, b).contains_key(other) == m.contains_key(other),
        m.contains_key(other) ==> m.insert(k, b)[other] == m[other],
{
}

/// What was just filed under an identifier is what that identifier then
/// holds: an insertion followed by a view under the same identifier yields
/// the holder that was filed.
pub proof fn lemma_insert_round_trip(
    m: Map<core::any::TypeId, ErasedBox>,
    k: core::any::TypeId,
    b: ErasedBox,
)
    ensures
        m.insert(k, b).contains_key(k),
        m.insert(k, b)[k] == b,
{
}

/// Rebinding an occupied identifier — what writing through an exclusive
/// view leaves behind — keeps the set of occupied identifiers, binds the
/// written holder there, and touches no other identifier, so a later view
/// under the same identifier yields the modification.
pub proof fn lemma_rebind_in_place(
    m: Map<core::any::TypeId, ErasedBox>,
    k: core::any::TypeId,
    b: ErasedBox,
)
    requires
        m.contains_key(k),
    ensures
        m.insert(k, b).dom() == m.dom(),
        m.insert(k, b)[k] == b,
        forall|other: core::any::TypeId|
            other != k && m.contains_key(other) ==> #[trigger] m.insert(k, b)[other] == m[other],
{
    assert(m.insert(k, b).dom() =~= m.dom());
}

/// After a removal the identifier is unoccupied until something is filed
/// there again, and every other identifier keeps its holder.
pub proof fn lemma_remove_clears(
    m: Map<core::any::TypeId, ErasedBox>,
    k: core::any::TypeId,
    other: core::any::TypeId,
)
    requires
        k != other,
    ensures
        !m.remove(k).contains_key(k),
        m.remove(k).contains_key(other) == m.contains_key(other),
        m.contains_key(other) ==> m.remove(k)[other] == m[other],
{
}

/// Clearing leaves every identifier unoccupied, and a later insertion works
/// exactly as on a fresh store: it creates the one entry it files.
pub proof fn lemma_clear_then_insert(k: core::any::TypeId, b: ErasedBox)
    ensures
        !Map::<core::any::TypeId, ErasedBox>::empty().contains_key(k),
        Map::<core::any::TypeId, ErasedBox>::empty().insert(k, b)[k] == b,
        Map::<core::any::TypeId, ErasedBox>::empty().insert(k, b).dom() == Set::<
            core::any::TypeId,
        >::empty().insert(k),
{
    assert(Map::<core::any::TypeId, ErasedBox>::empty().insert(k, b).dom() =~= Set::<
        core::any::TypeId,
    >::empty().insert(k));
}

} // verus!
