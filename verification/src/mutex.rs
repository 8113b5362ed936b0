//! The spinlock mutex: the exclusive-access primitive guarding shared
//! process-independent state (notably the heap allocator) before any
//! blocking primitive exists.
//!
//! On the target, `lock` busy-waits on an atomic exclusivity flag until a
//! compare-and-swap from "free" to "held" succeeds. On this design's
//! single-core, non-preemptive target a context that spins on a flag it
//! holds itself deadlocks — an accepted limitation — so acquiring an
//! already-held lock is excluded by precondition rather than modelled as an
//! endless spin. While the lock is held, the guard owns the wrapped value
//! outright: no other access path to it exists until release.

use vstd::prelude::*;

verus! {

/// A value `T` wrapped with an exclusivity flag. The flag is true iff some
/// holder currently has exclusive access to the value; while it is true,
/// the value lives in the holder's guard and the mutex holds nothing.
pub struct Mutex<T> {
    locked: bool,
    data: Option<T>,
}

/// A scoped handle granting read/write access to the value taken out of a
/// locked mutex. Handing it back to `unlock` is what releases the lock, so
/// release is tied to the guard on every exit path of the holder's scope.
pub struct MutexGuard<T> {
    value: T,
}

impl<T> MutexGuard<T> {
    fn new(value: T) -> (g: MutexGuard<T>)
        ensures
            g@ == value,
    {
        MutexGuard { value }
    }

    /// Read access to the guarded value.
    pub fn get(&self) -> (v: &T)
        ensures
            *v == self@,
    {
        &self.value
    }

    /// Write access to the guarded value: overwrites it.
    pub fn set(&mut self, value: T)
        ensures
            final(self)@ == value,
    {
        self.value = value;
    }

    /// Read/write access to the guarded value.
    pub fn get_mut(&mut self) -> (v: &mut T)
        ensures
            *v == old(self)@,
            final(self)@ == *final(v),
    {
        &mut self.value
    }

    /// Gives up the handle, yielding the guarded value itself.
    pub fn into_inner(self) -> (v: T)
        ensures
            v == self@,
    {
        self.value
    }
}

impl<T> View for MutexGuard<T> {
    type V = T;

    closed spec fn view(&self) -> T {
        self.value
    }
}

impl<T> Mutex<T> {
    /// The flag is true iff some holder has exclusive access.
    pub closed spec fn is_locked(self) -> bool {
        self.locked
    }

    /// What the mutex itself holds: the wrapped value while free, nothing
    /// while a guard is out.
    pub closed spec fn stored(self) -> Option<T> {
        self.data
    }

    /// The exclusivity invariant: the mutex holds the value exactly when no
    /// holder does.
    pub open spec fn wf(self) -> bool {
        self.is_locked() <==> self.stored() is None
    }

    /// A free mutex wrapping `value`.
    pub fn new(value: T) -> (m: Mutex<T>)
        ensures
            m.wf(),
            !m.is_locked(),
            m.stored() == Some(value),
    {
        Mutex { locked: false, data: Some(value) }
    }

    /// Acquires exclusive access: sets the exclusivity flag and hands the
    /// wrapped value to the returned guard. On the target this busy-waits
    /// until the flag flips from "free" to "held"; here the lock must be
    /// free, since the only way it could be held on a single core is by the
    /// caller itself, which would spin forever.
    pub fn lock(&mut self) -> (g: MutexGuard<T>)
        requires
            old(self).wf(),
            !old(self).is_locked(),
        ensures
            final(self).wf(),
            final(self).is_locked(),
            Some(g@) == old(self).stored(),
    {
        self.locked = true;
        let data = self.data.take();
        match data {
            Some(value) => MutexGuard::new(value),
            None => {
                proof {
                    assert(false);
                }
                unreached()
            },
        }
    }

    /// Releases the lock: clears the exclusivity flag and stores the
    /// guard's value — whole, in one step — back into the mutex.
    pub fn unlock(&mut self, g: MutexGuard<T>)
        requires
            old(self).wf(),
            old(self).is_locked(),
        ensures
            final(self).wf(),
            !final(self).is_locked(),
            final(self).stored() == Some(g@),
    {
        self.locked = false;
        self.data = Some(g.into_inner());
    }
}

/// Exactly what `lock` promises: `pre` was free and well-formed, `post` is
/// the mutex afterwards, and `guard_value` is what the returned guard holds.
pub open spec fn lock_transition<T>(pre: Mutex<T>, post: Mutex<T>, guard_value: T) -> bool {
    &&& pre.wf()
    &&& !pre.is_locked()
    &&& post.wf()
    &&& post.is_locked()
    &&& Some(guard_value) == pre.stored()
}

/// Exactly what `unlock` promises: `pre` was held and well-formed, `post`
/// is the mutex afterwards, and `guard_value` is what the surrendered guard
/// held at release.
pub open spec fn unlock_transition<T>(pre: Mutex<T>, post: Mutex<T>, guard_value: T) -> bool {
    &&& pre.wf()
    &&& pre.is_locked()
    &&& post.wf()
    &&& !post.is_locked()
    &&& post.stored() == Some(guard_value)
}

/// Law: guarded mutations are atomic with respect to the wrapped value.
/// Take any holder that acquires a free mutex storing `u` (states `m0` to
/// `m1`) and, after editing the guard however it likes so that it holds `v`,
/// releases it (states `m1` to `m2`). Then while the lock is held the mutex
/// stores nothing at all — a second logical acquirer (a simulated interrupt
/// against the mainline, say) finds the flag set and no value, so it can
/// never observe a half-written `v` — and at release the stored value goes
/// from absent to the whole of `v` in one step.
pub proof fn lemma_guarded_update_atomic<T>(m0: Mutex<T>, m1: Mutex<T>, m2: Mutex<T>, u: T, v: T)
    requires
        m0.stored() == Some(u),
        lock_transition(m0, m1, u),
        unlock_transition(m1, m2, v),
    ensures
        m1.is_locked(),
        m1.stored() is None,
        !m2.is_locked(),
        m2.stored() == Some(v),
{
}

} // verus!
