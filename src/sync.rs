//! A lock owned by a CPU. Each call makes one attempt; the caller that must
//! wait spins on `try_lock` with interrupts off.
use vstd::prelude::*;

verus! {

/// The owner value of a free lock.
pub const FREE: isize = -1;

/// One attempt by `cpu` on a lock held by `owner`: the new owner and whether
/// `cpu` got it. A free lock goes to `cpu`; a held one stays as it is.
pub open spec fn lock_attempt(owner: isize, cpu: isize) -> (isize, bool) {
    if owner == FREE {
        (cpu, true)
    } else {
        (owner, false)
    }
}

/// A value guarded by a lock that records which CPU holds it.
pub struct CpuMutex<T> {
    owner: isize,
    data: T,
}

impl<T> CpuMutex<T> {
    /// The CPU that holds the lock, or `FREE`.
    pub closed spec fn owner(&self) -> isize {
        self.owner
    }

    /// The guarded value.
    pub closed spec fn value(&self) -> T {
        self.data
    }

    /// A free lock around `user_data`.
    pub fn new(user_data: T) -> (r: CpuMutex<T>)
        ensures
            r.owner() == FREE,
            r.value() == user_data,
    {
        CpuMutex { owner: FREE, data: user_data }
    }

    /// Whether `cpu` holds the lock.
    pub fn is_held_by(&self, cpu: isize) -> (r: bool)
        ensures
            r == (self.owner() == cpu),
    {
        self.owner == cpu
    }

    /// One attempt by `cpu` to take the lock, as a compare-and-swap from
    /// `FREE` to `cpu`. Taking a lock twice on one CPU is a bug, so `cpu`
    /// must not hold it already.
    pub fn try_lock(&mut self, cpu: isize) -> (r: bool)
        requires
            cpu >= 0,
            old(self).owner() != cpu,
        ensures
            (final(self).owner(), r) == lock_attempt(old(self).owner(), cpu),
            final(self).value() == old(self).value(),
    {
        if self.owner == FREE {
            self.owner = cpu;
            true
        } else {
            false
        }
    }

    /// Releases the lock held by `cpu`.
    pub fn unlock(&mut self, cpu: isize)
        requires
            old(self).owner() == cpu,
        ensures
            final(self).owner() == FREE,
            final(self).value() == old(self).value(),
    {
        self.owner = FREE;
    }

    /// The guarded value, read by the CPU that holds the lock.
    pub fn get(&self, cpu: isize) -> (r: &T)
        requires
            self.owner() == cpu,
        ensures
            *r == self.value(),
    {
        &self.data
    }

    /// The guarded value, for the CPU that holds the lock to change in place.
    pub fn get_mut(&mut self, cpu: isize) -> (r: &mut T)
        requires
            old(self).owner() == cpu,
        ensures
            *r == old(self).value(),
            final(self).value() == *final(r),
            final(self).owner() == cpu,
    {
        &mut self.data
    }

    /// Replaces the guarded value; only the CPU that holds the lock may.
    pub fn set(&mut self, cpu: isize, v: T)
        requires
            old(self).owner() == cpu,
        ensures
            final(self).owner() == cpu,
            final(self).value() == v,
    {
        self.data = v;
    }
}

/// While CPU `a` holds the lock, an attempt by any other CPU fails and
/// leaves `a` the owner, so the guarded value is only ever changed by one
/// CPU at a time.
pub proof fn lemma_mutual_exclusion(a: isize, b: isize)
    requires
        a >= 0,
        b >= 0,
        a != b,
    ensures
        lock_attempt(a, b) == (a, false),
        lock_attempt(FREE, a) == (a, true),
{
}

} // verus!
