//! The slot that a transcription holds while it runs.

use tokio::sync::Semaphore;
use vstd::prelude::*;

verus! {

/// `tokio::sync::Semaphore`, which hands out a number of permits.
#[verifier::external_type_specification]
#[verifier::external_body]
pub struct ExSemaphore(tokio::sync::Semaphore);

/// How many permits of a semaphore are there to be taken.
pub uninterp spec fn free_permits(semaphore: Semaphore) -> nat;

/// The semaphore was not closed, and nobody waits for a permit of it.
pub uninterp spec fn is_at_rest(semaphore: Semaphore) -> bool;

/// `tokio::sync::Semaphore::new`: a semaphore with the given number of permits, all of
/// them there to be taken. It panics above its maximum, which is higher than the bound
/// here.
#[verifier::external_body]
fn new_semaphore(permits: usize) -> (semaphore: Semaphore)
    requires
        permits <= 1024,
    ensures
        free_permits(semaphore) == permits,
        is_at_rest(semaphore),
{
    Semaphore::new(permits)
}

/// `tokio::sync::Semaphore::try_acquire`: takes a permit if there is one. The permit is
/// kept taken until it is given back by hand.
#[verifier::external_body]
fn take_permit(semaphore: &mut Semaphore) -> (taken: bool)
    requires
        is_at_rest(*old(semaphore)),
    ensures
        is_at_rest(*final(semaphore)),
        taken == (free_permits(*old(semaphore)) > 0),
        free_permits(*final(semaphore)) == if taken {
            free_permits(*old(semaphore)) - 1
        } else {
            free_permits(*old(semaphore)) as int
        },
{
    match semaphore.try_acquire() {
        Ok(permit) => {
            permit.forget();
            true
        },
        Err(_) => false,
    }
}

/// `tokio::sync::Semaphore::add_permits` with one permit: there is one more to be
/// taken. It panics above the maximum, which is higher than the bound here.
#[verifier::external_body]
fn return_permit(semaphore: &mut Semaphore)
    requires
        is_at_rest(*old(semaphore)),
        free_permits(*old(semaphore)) < 1024,
    ensures
        is_at_rest(*final(semaphore)),
        free_permits(*final(semaphore)) == free_permits(*old(semaphore)) + 1,
{
    semaphore.add_permits(1);
}

/// A slot that is free or taken.
pub struct Slot {
    semaphore: Semaphore,
}

impl Slot {
    /// The semaphore has one permit at most.
    pub closed spec fn wf(&self) -> bool {
        is_at_rest(self.semaphore) && free_permits(self.semaphore) <= 1
    }

    /// Nobody holds the slot.
    pub closed spec fn is_free(&self) -> bool {
        free_permits(self.semaphore) > 0
    }

    /// A slot that nobody holds.
    pub fn new() -> (slot: Slot)
        ensures
            slot.wf(),
            slot.is_free(),
    {
        Slot { semaphore: new_semaphore(1) }
    }

    /// Takes the slot if it is free. Returns whether it was.
    pub fn try_take(&mut self) -> (taken: bool)
        requires
            old(self).wf(),
        ensures
            final(self).wf(),
            taken == old(self).is_free(),
            !final(self).is_free(),
    {
        take_permit(&mut self.semaphore)
    }

    /// Gives the slot back.
    pub fn release(&mut self)
        requires
            old(self).wf(),
            !old(self).is_free(),
        ensures
            final(self).wf(),
            final(self).is_free(),
    {
        return_permit(&mut self.semaphore);
    }
}

} // verus!
