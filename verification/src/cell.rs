//! The swappable cells of the arc-swap backend. Their fields are private to
//! this module: a cell is only ever made by `new_slot`, which records the
//! text its slot was made holding.
use vstd::prelude::*;

verus! {

/// An `arc_swap::ArcSwap<String>`: a string that readers load and writers
/// replace atomically through a shared reference. It is held opaquely: its
/// contents change behind `&self`, from any thread, so no state of it is
/// modelled.
#[verifier::external_body]
struct Slot {
    inner: arc_swap::ArcSwap<String>,
}

/// Calls `arc_swap::ArcSwap::from_pointee` with `value` and keeps the slot
/// in a new cell whose ghost record is the text handed to it. Trusted: the
/// record is `value`, the very string the slot was made holding. Nothing is
/// stated of the contents later on, which stores through shared references
/// replace.
#[verifier::external_body]
fn new_slot(value: String) -> (r: SwapCell)
    ensures
        r.created() == value@,
{
    let text = Ghost(value@);
    SwapCell { slot: Slot { inner: arc_swap::ArcSwap::from_pointee(value) }, created: text }
}

/// Calls `arc_swap::ArcSwap::load` and clones the string loaded. Trusted;
/// nothing is stated of the result, which depends on the stores made so far,
/// from any thread.
#[verifier::external_body]
fn load_slot(slot: &Slot) -> String {
    (**slot.inner.load()).clone()
}

/// Calls `arc_swap::ArcSwap::store` with `value`. Trusted; nothing is stated.
#[verifier::external_body]
fn store_slot(slot: &Slot, value: String) {
    slot.inner.store(std::sync::Arc::new(value))
}

/// A swappable cell, with a ghost record of the text the slot was made
/// holding (`new_slot` states it). Later stores, through shared references,
/// replace the slot's contents but not the record.
pub(crate) struct SwapCell {
    slot: Slot,
    created: Ghost<Seq<char>>,
}

impl SwapCell {
    /// The text the slot was made holding.
    pub(crate) closed spec fn created(&self) -> Seq<char> {
        self.created@
    }

    /// A new cell holding `value`.
    pub(crate) fn from_pointee(value: String) -> (r: SwapCell)
        ensures
            r.created() == value@,
    {
        new_slot(value)
    }

    /// The current contents of the cell.
    pub(crate) fn load_string(&self) -> String {
        load_slot(&self.slot)
    }

    /// Replaces the contents of the cell.
    pub(crate) fn store_string(&self, value: String) {
        store_slot(&self.slot, value)
    }
}

} // verus!
