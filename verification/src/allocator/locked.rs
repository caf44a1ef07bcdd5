//! Exclusive access to an allocator through a spin lock.

use vstd::prelude::*;

verus! {

/// `spin::Mutex`, a lock that waits by spinning. Nothing of what it holds is
/// visible to the verifier.
#[verifier::external_type_specification]
#[verifier::external_body]
#[verifier::reject_recursive_types(T)]
pub struct ExMutex<T: ?Sized>(spin::Mutex<T>);

/// `spin::MutexGuard`, the access that a caller of `spin::Mutex::lock` is
/// given; dropping it releases the lock.
#[verifier::external_type_specification]
#[verifier::external_body]
#[verifier::reject_recursive_types(T)]
pub struct ExMutexGuard<'a, T: ?Sized + 'a>(spin::MutexGuard<'a, T>);

/// `spin::Mutex::new` wraps a value in an unlocked lock. Nothing is claimed
/// of the result.
pub assume_specification<T>[ spin::Mutex::<T>::new ](user_data: T) -> (mutex: spin::Mutex<T>);

/// `spin::Mutex::lock` spins until the lock is free and returns the guard.
/// It does not return while the lock is held, so a caller that holds the
/// guard already must not call it. Nothing is claimed of what the guard
/// gives access to: another holder of the lock may have changed it.
pub assume_specification<T: ?Sized>[ spin::Mutex::<T>::lock ](mutex: &spin::Mutex<T>) -> (guard:
    spin::MutexGuard<'_, T>);

/// A value that is reached only through a spin lock, so that at most one
/// caller changes it at a time.
#[verifier::reject_recursive_types(A)]
pub struct Locked<A> {
    inner: spin::Mutex<A>,
}

impl<A> Locked<A> {
    /// Puts `inner` behind a lock of its own.
    pub fn new(inner: A) -> (locked: Self) {
        Locked { inner: spin::Mutex::new(inner) }
    }

    /// Waits until no one else holds the lock, then returns the guard
    /// through which the value is reached. The lock is released when the
    /// guard is dropped. A caller that already holds the guard waits for
    /// ever.
    pub fn lock(&self) -> (guard: spin::MutexGuard<'_, A>) {
        self.inner.lock()
    }
}

} // verus!
