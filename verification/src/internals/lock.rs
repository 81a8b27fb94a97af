//! Spin lock whose state is a single flag next to the data it protects.

use vstd::prelude::*;

verus! {

/// Whether somebody holds a lock.
#[derive(Clone, Copy, Debug, PartialEq, Eq, Structural)]
pub enum LockState {
    Locked,
    Free,
}

/// Outcome of an attempt to take a lock without waiting.
pub enum LockGuard<G> {
    Locked,
    Free(G),
}

/// Access to the data of a lock that is currently held.
pub struct SpinLockGuard<'a, T> {
    lock: &'a mut bool,
    data: &'a mut T,
}

impl<'a, T> SpinLockGuard<'a, T> {
    /// Flag of the lock that this guard holds.
    pub closed spec fn flag(&self) -> &'a mut bool {
        self.lock
    }

    /// Data that this guard gives access to.
    pub closed spec fn content(&self) -> &'a mut T {
        self.data
    }

    pub fn new(lock: &'a mut bool, data: &'a mut T) -> (guard: Self)
        ensures
            *guard.flag() == *old(lock),
            *final(lock) == *final(guard.flag()),
            *guard.content() == *old(data),
            *final(data) == *final(guard.content()),
    {
        SpinLockGuard { lock, data }
    }

    /// Reads the protected data.
    pub fn deref(&self) -> (r: &T)
        ensures
            *r == *self.content(),
    {
        &*self.data
    }

    /// Access for changing the protected data.
    pub fn deref_mut(&mut self) -> (r: &mut T)
        ensures
            *r == *old(self).content(),
            *final(self).content() == *final(r),
            *final(self).flag() == *old(self).flag(),
            *final(final(self).content()) == *final(old(self).content()),
            *final(final(self).flag()) == *final(old(self).flag()),
    {
        &mut *self.data
    }

    /// Gives the lock back.
    pub fn release(self)
        ensures
            *final(self.flag()) == false,
            *final(self.content()) == *self.content(),
    {
        *self.lock = false;
    }
}

/// A value that only the holder of the flag may touch.
pub struct SpinLock<T> {
    state: bool,
    data: T,
}

impl<T> SpinLock<T> {
    /// Whether the lock is held.
    pub closed spec fn locked(&self) -> bool {
        self.state
    }

    /// The protected value.
    pub closed spec fn value(&self) -> T {
        self.data
    }

    pub fn new(data: T) -> (r: Self)
        ensures
            !r.locked(),
            r.value() == data,
    {
        SpinLock { state: false, data }
    }

    /// Takes the lock when it is free.
    pub fn try_lock(&mut self) -> (r: LockGuard<SpinLockGuard<'_, T>>)
        ensures
            old(self).locked() ==> r is Locked && *final(self) == *old(self),
            !old(self).locked() ==> (r matches LockGuard::Free(guard) && *guard.flag()
                && *guard.content() == old(self).value() && final(self).locked() == *final(guard.flag())
                && final(self).value() == *final(guard.content())),
    {
        if self.state {
            LockGuard::Locked
        } else {
            self.state = true;
            LockGuard::Free(SpinLockGuard::new(&mut self.state, &mut self.data))
        }
    }

    /// Takes the lock. While somebody else holds it, there would be nothing to do but wait.
    pub fn lock(&mut self) -> (guard: SpinLockGuard<'_, T>)
        requires
            !old(self).locked(),
        ensures
            *guard.flag(),
            *guard.content() == old(self).value(),
            final(self).locked() == *final(guard.flag()),
            final(self).value() == *final(guard.content()),
    {
        self.state = true;
        SpinLockGuard::new(&mut self.state, &mut self.data)
    }

    /// Whether the lock is held at this moment.
    pub fn get_lock(&self) -> (r: LockState)
        ensures
            r == (if self.locked() {
                LockState::Locked
            } else {
                LockState::Free
            }),
    {
        if self.state {
            return LockState::Locked;
        }
        LockState::Free
    }

    /// Takes the lock and keeps it, so that nobody holds it half way while the process forks.
    pub fn lock_for_fork(&mut self)
        requires
            !old(self).locked(),
        ensures
            final(self).locked(),
            final(self).value() == old(self).value(),
    {
        self.state = true;
    }

    /// Frees the lock whoever held it when the process forked.
    pub fn reset_at_fork(&mut self)
        ensures
            !final(self).locked(),
            final(self).value() == old(self).value(),
    {
        self.state = false;
    }
}

} // verus!
