use vstd::prelude::*;

verus! {

#[verifier::external_type_specification]
#[verifier::external_body]
pub struct ExSemaphore(tokio::sync::Semaphore);

#[verifier::external_type_specification]
#[verifier::external_body]
pub struct ExSemaphorePermit<'a>(tokio::sync::SemaphorePermit<'a>);

/// The most permits a tokio semaphore can hold (`Semaphore::MAX_PERMITS`).
pub open spec fn max_permits() -> nat {
    (usize::MAX >> 3usize) as nat
}

/// The number of permits a semaphore was made with.
pub uninterp spec fn created_permits(s: tokio::sync::Semaphore) -> nat;

/// Calls `tokio::sync::Semaphore::new`, which panics above `MAX_PERMITS`
/// and otherwise makes a semaphore with `permits` permits.
#[verifier::external_body]
fn semaphore_new(permits: usize) -> (s: tokio::sync::Semaphore)
    requires
        permits <= max_permits(),
    ensures
        created_permits(s) == permits,
{
    tokio::sync::Semaphore::new(permits)
}

/// Calls `tokio::sync::Semaphore::try_acquire`: a permit where one is left
/// at the moment of the call, `None` otherwise. The semaphore is shared, so
/// nothing here says which comes back.
#[verifier::external_body]
fn semaphore_try_acquire<'a>(s: &'a tokio::sync::Semaphore) -> (r: Option<
    tokio::sync::SemaphorePermit<'a>,
>) {
    s.try_acquire().ok()
}

/// Calls `tokio::sync::Semaphore::available_permits`, a count of a shared
/// semaphore taken at the moment of the call. Which count comes back depends
/// on the tickets taken and given back by then; what always holds is that a
/// semaphore never holds more than `MAX_PERMITS` permits (tokio asserts it
/// wherever permits are added).
#[verifier::external_body]
fn semaphore_available(s: &tokio::sync::Semaphore) -> (r: usize)
    ensures
        r <= max_permits(),
{
    s.available_permits()
}

/// A museum that lets in as many visitors at a time as it has tickets.
pub struct Museum {
    remaining_tickets: tokio::sync::Semaphore,
}

/// A ticket of a museum; the place it holds is given back when it is dropped.
#[derive(Debug)]
pub struct Ticket<'a> {
    permit: tokio::sync::SemaphorePermit<'a>,
}

impl Museum {
    /// The number of tickets the museum was opened with.
    pub closed spec fn tickets(&self) -> nat {
        created_permits(self.remaining_tickets)
    }

    /// A museum with `permits` tickets.
    pub fn new(permits: usize) -> (r: Self)
        requires
            permits <= max_permits(),
        ensures
            r.tickets() == permits,
    {
        Self { remaining_tickets: semaphore_new(permits) }
    }

    /// A ticket where one is left, `None` where all are taken.
    pub fn get_ticket(&self) -> (r: Option<Ticket<'_>>) {
        match semaphore_try_acquire(&self.remaining_tickets) {
            Some(permit) => Some(Ticket { permit }),
            None => None,
        }
    }

    /// How many tickets are left at the moment of the call; never more than
    /// a semaphore can hold.
    pub fn remain(&self) -> (r: usize)
        ensures
            r <= max_permits(),
    {
        semaphore_available(&self.remaining_tickets)
    }
}

} // verus!
