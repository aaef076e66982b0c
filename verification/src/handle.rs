//! Handles: values bound to the slot that a notebook gave them.

use vstd::prelude::*;
use crate::block::Block;
use crate::error::Error;
use crate::layout::Layout;
use crate::notebook::TypedNotebook;

verus! {

/// A value together with the slot that a notebook reserved for it. The handle owns the
/// value: when the handle goes, the value goes with it, once.
#[derive(Debug)]
pub struct Handle<T> {
    slot: usize,
    value: T,
}

impl<T> View for Handle<T> {
    type V = T;

    /// The value.
    closed spec fn view(&self) -> T {
        self.value
    }
}

impl<T> core::ops::Deref for Handle<T> {
    type Target = T;

    /// The value.
    fn deref(&self) -> (v: &T)
        ensures
            *v == self@,
    {
        &self.value
    }
}

impl<T> core::ops::DerefMut for Handle<T> {
    /// The value, to be changed in place.
    fn deref_mut(&mut self) -> (v: &mut T)
        ensures
            *v == old(self)@,
            final(self)@ == *final(v),
            final(self).slot() == old(self).slot(),
    {
        &mut self.value
    }
}

impl<T> Handle<T> {
    /// The address of the slot.
    pub closed spec fn spec_slot(&self) -> usize {
        self.slot
    }

    /// Binds `value` to the slot at `slot`.
    pub fn new(slot: usize, value: T) -> (h: Handle<T>)
        ensures
            h.slot() == slot,
            h@ == value,
    {
        Handle { slot, value }
    }

    /// The address of the slot.
    #[verifier::when_used_as_spec(spec_slot)]
    pub fn slot(&self) -> (p: usize)
        ensures
            p == self.slot(),
    {
        self.slot
    }

    /// Ends the handle: gives up the value, then has `notebook` take the slot back, and
    /// says whether it did.
    pub fn release<N: TypedNotebook<T>>(self, notebook: &mut N) -> (r: bool)
        requires
            old(notebook).wf_t(),
        ensures
            final(notebook).wf_t(),
            forall|layout: Layout, outcome: Result<Block, Error>| #[trigger]
                final(notebook).asked_t(layout, outcome) == old(notebook).asked_t(
                    layout,
                    outcome,
                ),
            old(notebook).model_t().deallocated(
                final(notebook).model_t(),
                N::chapter_t(),
                self.slot(),
                r,
            ),
    {
        let Handle { slot, value } = self;
        {
            let _gone = value;
        }
        notebook.dealloc_t(slot)
    }
}

} // verus!
