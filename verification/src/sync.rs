//! Mutual exclusion for applications: a lock whose `lock` gives a `Result` that is
//! always `Ok`, since it cannot be poisoned.
use vstd::prelude::*;
use vstd::rwlock::RwLockPredicate;
use crate::kernel::sync::{Rule, SpinGuard, SpinLock};

verus! {

/// The error of a lock that was poisoned. A [`Mutex`] never is, and never gives it.
#[derive(Debug, Clone, Copy, PartialEq, Eq)]
pub struct Poisoned;

/// A spin-based mutual-exclusion lock.
#[verifier::reject_recursive_types(T)]
pub struct Mutex<T> {
    inner: SpinLock<T>,
}

impl<T> Mutex<T> {
    /// The rule of the mutex.
    pub closed spec fn rule(&self) -> Rule<T> {
        self.inner.rule()
    }

    /// Create a new mutex wrapping `value`. Its holders may put any value back.
    pub fn new(value: T) -> (m: Mutex<T>)
        ensures
            m.rule().start == value,
            forall|v: T| #[trigger] m.rule().inv(v),
    {
        Mutex { inner: SpinLock::new(value) }
    }

    /// Create a new mutex wrapping `value`, whose values stand in the relation `keeps`
    /// to it.
    pub fn with_rule(value: T, keeps: Ghost<spec_fn(T, T) -> bool>) -> (m: Mutex<T>)
        requires
            keeps@(value, value),
        ensures
            m.rule() == (Rule { start: value, keeps: keeps@ }),
    {
        Mutex { inner: SpinLock::with_rule(value, keeps) }
    }

    /// Acquire the lock, returning a guard. Always `Ok`; the value keeps the rule.
    pub fn lock(&self) -> (r: Result<MutexGuard<'_, T>, Poisoned>)
        ensures
            r matches Ok(guard) && guard.rule() == self.rule() && self.rule().inv(guard@),
    {
        Ok(MutexGuard { inner: self.inner.lock() })
    }
}

/// What the holder of a [`Mutex`] has: the value, until [`MutexGuard::unlock`]. The
/// mutex stays taken until then.
#[verifier::reject_recursive_types(T)]
pub struct MutexGuard<'a, T> {
    inner: SpinGuard<'a, T>,
}

impl<'a, T> View for MutexGuard<'a, T> {
    type V = T;

    closed spec fn view(&self) -> T {
        self.inner@
    }
}

impl<'a, T> MutexGuard<'a, T> {
    /// The rule of the mutex that is held.
    pub closed spec fn rule(&self) -> Rule<T> {
        self.inner.rule()
    }

    /// The value.
    pub fn get(&self) -> (value: &T)
        ensures
            *value == self@,
    {
        self.inner.get()
    }

    /// The value, to change.
    pub fn get_mut(&mut self) -> (value: &mut T)
        ensures
            *value == old(self)@,
            final(self)@ == *final(value),
            final(self).rule() == old(self).rule(),
    {
        self.inner.get_mut()
    }

    /// Release the lock. The value keeps the rule again.
    pub fn unlock(self)
        requires
            self.rule().inv(self@),
    {
        self.inner.unlock();
    }
}

} // verus!
