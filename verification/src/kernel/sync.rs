//! A spinlock for data that several execution contexts change.
//!
//! A lock has a rule, which relates every value in it to the value it was made with:
//! whoever takes the lock may count on the rule, and gives the value back only when it
//! holds again. In between, the holder of the guard is the only one to reach the
//! value.
use vstd::prelude::*;
use vstd::rwlock::{RwLock, RwLockPredicate, WriteHandle};

verus! {

/// What the values in a lock keep: each stands in the relation `keeps` to `start`, the
/// value that the lock was made with.
#[verifier::reject_recursive_types(T)]
pub ghost struct Rule<T> {
    pub start: T,
    pub keeps: spec_fn(T, T) -> bool,
}

impl<T> RwLockPredicate<T> for Rule<T> {
    open spec fn inv(self, value: T) -> bool {
        (self.keeps)(self.start, value)
    }
}

/// A spinlock guarding a value of type `T`.
#[verifier::reject_recursive_types(T)]
pub struct SpinLock<T> {
    inner: RwLock<T, Rule<T>>,
}

impl<T> SpinLock<T> {
    /// The rule of the lock.
    pub closed spec fn rule(&self) -> Rule<T> {
        self.inner.pred()
    }

    /// Create a new spinlock wrapping `value`. Its holders may put any value back.
    pub fn new(value: T) -> (lock: SpinLock<T>)
        ensures
            lock.rule().start == value,
            forall|v: T| #[trigger] lock.rule().inv(v),
    {
        let ghost keeps = |from: T, to: T| true;
        SpinLock { inner: RwLock::new(value, Ghost(Rule { start: value, keeps })) }
    }

    /// Create a new spinlock wrapping `value`, whose values stand in the relation
    /// `keeps` to it.
    pub fn with_rule(value: T, keeps: Ghost<spec_fn(T, T) -> bool>) -> (lock: SpinLock<T>)
        requires
            keeps@(value, value),
        ensures
            lock.rule() == (Rule { start: value, keeps: keeps@ }),
    {
        SpinLock { inner: RwLock::new(value, Ghost(Rule { start: value, keeps: keeps@ })) }
    }

    /// Acquire the lock, spinning until it is free, and return a guard. The value
    /// keeps the rule.
    pub fn lock(&self) -> (guard: SpinGuard<'_, T>)
        ensures
            guard.rule() == self.rule(),
            self.rule().inv(guard@),
    {
        let (value, handle) = self.inner.acquire_write();
        SpinGuard { value, handle }
    }
}

/// What the holder of a [`SpinLock`] has: the value, until [`SpinGuard::unlock`]. The
/// lock stays taken until then.
#[verifier::reject_recursive_types(T)]
pub struct SpinGuard<'a, T> {
    value: T,
    handle: WriteHandle<'a, T, Rule<T>>,
}

impl<'a, T> View for SpinGuard<'a, T> {
    type V = T;

    closed spec fn view(&self) -> T {
        self.value
    }
}

impl<'a, T> SpinGuard<'a, T> {
    /// The rule of the lock that is held.
    pub closed spec fn rule(&self) -> Rule<T> {
        self.handle.rwlock().pred()
    }

    /// The value.
    pub fn get(&self) -> (value: &T)
        ensures
            *value == self@,
    {
        &self.value
    }

    /// The value, to change.
    pub fn get_mut(&mut self) -> (value: &mut T)
        ensures
            *value == old(self)@,
            final(self)@ == *final(value),
            final(self).rule() == old(self).rule(),
    {
        &mut self.value
    }

    /// Release the lock. The value keeps the rule again.
    pub fn unlock(self)
        requires
            self.rule().inv(self@),
    {
        let SpinGuard { value, handle } = self;
        handle.release_write(value);
    }
}

} // verus!
