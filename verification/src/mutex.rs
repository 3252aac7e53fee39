//! Spinning and blocking mutexes as state machines. Each operation decides
//! what happens to the lock and tells the caller what is left to do
//! (yield and retry, block, wake a thread); threads are named by their ids.
use vstd::prelude::*;
use std::collections::VecDeque;
use crate::banker::{
    granted, grant_ready, grant_unit, pass_on_ready, pass_on_unit, passed_on, release_ready,
    release_unit, released, take_over_ready, take_over_unit, taken_over, Banker,
};

verus! {

/// What a lock attempt leaves the calling thread to do.
#[derive(PartialEq, Eq, Structural, Clone, Copy, Debug)]
pub enum LockOutcome {
    /// The caller holds the mutex.
    Acquired,
    /// The mutex is taken: the caller yields the processor and tries again.
    Retry,
    /// The mutex is taken: the caller has been queued and blocks; when it is
    /// woken it holds the mutex.
    Blocked,
}

/// What an unlock leaves the calling thread to do.
#[derive(PartialEq, Eq, Structural, Clone, Copy, Debug)]
pub enum UnlockOutcome {
    /// The mutex is free.
    Released,
    /// The mutex went straight to the waiting thread with this id, which the
    /// caller wakes.
    HandedOver(usize),
}

/// A mutual-exclusion lock. The `_with_mutex_id` forms also keep the
/// banker's tables of the mutex `mutex_id` up to date.
pub trait Mutex {
    /// Whether `unlock` may be called in this state.
    spec fn can_unlock(&self) -> bool;

    /// Thread `tid` tries to take the lock.
    fn lock(&mut self, tid: usize) -> (r: LockOutcome);

    /// The holder lets the lock go.
    fn unlock(&mut self) -> (r: UnlockOutcome)
        requires
            old(self).can_unlock(),
    ;

    /// `lock`, booking one unit of `mutex_id` to `tid` when it gets the lock.
    fn lock_with_mutex_id(&mut self, tid: usize, mutex_id: usize, banker: &mut Banker) -> (r:
        LockOutcome)
        requires
            grant_ready(*old(banker), tid as nat, mutex_id as nat),
        ensures
            r == LockOutcome::Acquired ==> granted(*old(banker), *final(banker), tid as nat, mutex_id as nat),
            r != LockOutcome::Acquired ==> *final(banker) == *old(banker),
    ;

    /// `unlock` by `tid`, booking the unit of `mutex_id` it gives back or passes on.
    fn unlock_with_mutex_id(&mut self, tid: usize, mutex_id: usize, banker: &mut Banker) -> (r:
        UnlockOutcome)
        requires
            old(self).can_unlock(),
            release_ready(*old(banker), tid as nat, mutex_id as nat),
        ensures
            r == UnlockOutcome::Released ==> released(*old(banker), *final(banker), tid as nat, mutex_id as nat),
            r is HandedOver ==> passed_on(*old(banker), *final(banker), tid as nat, mutex_id as nat),
    ;
}

/// A lock that makes a thread that finds it taken yield and try again.
pub struct MutexSpin {
    locked: bool,
}

impl View for MutexSpin {
    type V = bool;

    /// Whether the lock is held.
    closed spec fn view(&self) -> bool {
        self.locked
    }
}

impl MutexSpin {
    /// A free spin lock.
    pub fn new() -> (m: Self)
        ensures
            !m@,
    {
        MutexSpin { locked: false }
    }

    /// Whether the lock is held.
    pub fn is_locked(&self) -> (b: bool)
        ensures
            b == self@,
    {
        self.locked
    }
}

impl Mutex for MutexSpin {
    open spec fn can_unlock(&self) -> bool {
        true
    }

    fn lock(&mut self, tid: usize) -> (r: LockOutcome)
        ensures
            final(self)@,
            r == (if old(self)@ { LockOutcome::Retry } else { LockOutcome::Acquired }),
    {
        if self.locked {
            LockOutcome::Retry
        } else {
            self.locked = true;
            LockOutcome::Acquired
        }
    }

    fn unlock(&mut self) -> (r: UnlockOutcome)
        ensures
            !final(self)@,
            r == UnlockOutcome::Released,
    {
        self.locked = false;
        UnlockOutcome::Released
    }

    fn lock_with_mutex_id(&mut self, tid: usize, mutex_id: usize, banker: &mut Banker) -> (r:
        LockOutcome)
        ensures
            final(self)@,
            r == (if old(self)@ { LockOutcome::Retry } else { LockOutcome::Acquired }),
    {
        if self.locked {
            LockOutcome::Retry
        } else {
            self.locked = true;
            grant_unit(banker, tid, mutex_id);
            LockOutcome::Acquired
        }
    }

    fn unlock_with_mutex_id(&mut self, tid: usize, mutex_id: usize, banker: &mut Banker) -> (r:
        UnlockOutcome)
        ensures
            !final(self)@,
            r == UnlockOutcome::Released,
    {
        self.locked = false;
        release_unit(banker, tid, mutex_id);
        UnlockOutcome::Released
    }
}

/// State of a blocking lock: whether it is held, and the threads waiting for
/// it in arrival order.
pub struct MutexBlockingInner {
    locked: bool,
    wait_queue: VecDeque<usize>,
}

/// A lock that queues a thread that finds it taken; unlocking hands it to
/// the longest-waiting thread.
pub struct MutexBlocking {
    inner: MutexBlockingInner,
}

impl View for MutexBlocking {
    type V = (bool, Seq<usize>);

    /// Whether the lock is held, and the waiting threads, first to wake first.
    closed spec fn view(&self) -> (bool, Seq<usize>) {
        (self.inner.locked, self.inner.wait_queue@)
    }
}

/// A lock attempt by `tid` on a blocking lock in state `m`: the new state
/// and the outcome.
pub open spec fn blocking_lock_step(m: (bool, Seq<usize>), tid: usize) -> ((bool, Seq<usize>), LockOutcome) {
    if m.0 {
        ((true, m.1.push(tid)), LockOutcome::Blocked)
    } else {
        ((true, m.1), LockOutcome::Acquired)
    }
}

/// An unlock of a held blocking lock in state `m`: the new state and the outcome.
pub open spec fn blocking_unlock_step(m: (bool, Seq<usize>)) -> ((bool, Seq<usize>), UnlockOutcome) {
    if m.1.len() > 0 {
        ((true, m.1.drop_first()), UnlockOutcome::HandedOver(m.1[0]))
    } else {
        ((false, m.1), UnlockOutcome::Released)
    }
}

impl MutexBlocking {
    /// A free blocking lock with nobody waiting.
    pub fn new() -> (m: Self)
        ensures
            m@ == (false, Seq::<usize>::empty()),
    {
        MutexBlocking { inner: MutexBlockingInner { locked: false, wait_queue: VecDeque::new() } }
    }

    /// Whether the lock is held.
    pub fn is_locked(&self) -> (b: bool)
        ensures
            b == self@.0,
    {
        self.inner.locked
    }

    /// Books that thread `tid`, woken after `lock_with_mutex_id` blocked it,
    /// now holds the unit of `mutex_id` passed on to it.
    pub fn lock_resumed_with_mutex_id(tid: usize, mutex_id: usize, banker: &mut Banker)
        requires
            take_over_ready(*old(banker), tid as nat, mutex_id as nat),
        ensures
            taken_over(*old(banker), *final(banker), tid as nat, mutex_id as nat),
    {
        take_over_unit(banker, tid, mutex_id);
    }
}

impl Mutex for MutexBlocking {
    open spec fn can_unlock(&self) -> bool {
        self@.0
    }

    fn lock(&mut self, tid: usize) -> (r: LockOutcome)
        ensures
            (final(self)@, r) == blocking_lock_step(old(self)@, tid),
            old(self)@.0 ==> final(self)@ == (true, old(self)@.1.push(tid)) && r == LockOutcome::Blocked,
            !old(self)@.0 ==> final(self)@ == (true, old(self)@.1) && r == LockOutcome::Acquired,
    {
        if self.inner.locked {
            self.inner.wait_queue.push_back(tid);
            LockOutcome::Blocked
        } else {
            self.inner.locked = true;
            LockOutcome::Acquired
        }
    }

    fn unlock(&mut self) -> (r: UnlockOutcome)
        ensures
            (final(self)@, r) == blocking_unlock_step(old(self)@),
            old(self)@.1.len() > 0 ==> final(self)@ == (true, old(self)@.1.drop_first()) && r
                == UnlockOutcome::HandedOver(old(self)@.1[0]),
            old(self)@.1.len() == 0 ==> final(self)@ == (false, old(self)@.1) && r == UnlockOutcome::Released,
    {
        match self.inner.wait_queue.pop_front() {
            Some(waking) => UnlockOutcome::HandedOver(waking),
            None => {
                self.inner.locked = false;
                UnlockOutcome::Released
            },
        }
    }

    fn lock_with_mutex_id(&mut self, tid: usize, mutex_id: usize, banker: &mut Banker) -> (r:
        LockOutcome)
        ensures
            (final(self)@, r) == blocking_lock_step(old(self)@, tid),
            old(self)@.0 ==> final(self)@ == (true, old(self)@.1.push(tid)) && r == LockOutcome::Blocked,
            !old(self)@.0 ==> final(self)@ == (true, old(self)@.1) && r == LockOutcome::Acquired,
    {
        if self.inner.locked {
            self.inner.wait_queue.push_back(tid);
            LockOutcome::Blocked
        } else {
            self.inner.locked = true;
            grant_unit(banker, tid, mutex_id);
            LockOutcome::Acquired
        }
    }

    fn unlock_with_mutex_id(&mut self, tid: usize, mutex_id: usize, banker: &mut Banker) -> (r:
        UnlockOutcome)
        ensures
            (final(self)@, r) == blocking_unlock_step(old(self)@),
            old(self)@.1.len() > 0 ==> final(self)@ == (true, old(self)@.1.drop_first()) && r
                == UnlockOutcome::HandedOver(old(self)@.1[0]),
            old(self)@.1.len() == 0 ==> final(self)@ == (false, old(self)@.1) && r == UnlockOutcome::Released,
    {
        match self.inner.wait_queue.pop_front() {
            Some(waking) => {
                pass_on_unit(banker, tid, mutex_id);
                UnlockOutcome::HandedOver(waking)
            },
            None => {
                release_unit(banker, tid, mutex_id);
                self.inner.locked = false;
                UnlockOutcome::Released
            },
        }
    }
}

/// A mutex of either kind, as a process stores it.
pub enum MutexKind {
    Spin(MutexSpin),
    Blocking(MutexBlocking),
}

impl View for MutexKind {
    type V = (bool, Seq<usize>);

    /// Whether the lock is held, and the waiting threads (none for a spin lock).
    open spec fn view(&self) -> (bool, Seq<usize>) {
        match self {
            MutexKind::Spin(m) => (m@, Seq::<usize>::empty()),
            MutexKind::Blocking(m) => m@,
        }
    }
}

/// A lock attempt by `tid` on a mutex of kind `blocking` in state `m`: the
/// new state and the outcome.
pub open spec fn kind_lock_step(blocking: bool, m: (bool, Seq<usize>), tid: usize) -> ((bool, Seq<usize>), LockOutcome) {
    if blocking {
        blocking_lock_step(m, tid)
    } else {
        ((true, m.1), if m.0 { LockOutcome::Retry } else { LockOutcome::Acquired })
    }
}

/// An unlock of a mutex of kind `blocking` in state `m`: the new state and the outcome.
pub open spec fn kind_unlock_step(blocking: bool, m: (bool, Seq<usize>)) -> ((bool, Seq<usize>), UnlockOutcome) {
    if blocking {
        blocking_unlock_step(m)
    } else {
        ((false, m.1), UnlockOutcome::Released)
    }
}

impl MutexKind {
    /// A free mutex with nobody waiting: blocking when `blocking`, else spinning.
    pub fn new(blocking: bool) -> (m: Self)
        ensures
            (m is Blocking) == blocking,
            m@ == (false, Seq::<usize>::empty()),
    {
        if !blocking {
            MutexKind::Spin(MutexSpin::new())
        } else {
            MutexKind::Blocking(MutexBlocking::new())
        }
    }

    /// Whether the lock is held.
    pub fn is_locked(&self) -> (b: bool)
        ensures
            b == self@.0,
    {
        match self {
            MutexKind::Spin(m) => m.is_locked(),
            MutexKind::Blocking(m) => m.is_locked(),
        }
    }
}

impl Mutex for MutexKind {
    open spec fn can_unlock(&self) -> bool {
        match self {
            MutexKind::Spin(_) => true,
            MutexKind::Blocking(m) => m@.0,
        }
    }

    fn lock(&mut self, tid: usize) -> (r: LockOutcome)
        ensures
            ((*final(self)) is Blocking) == ((*old(self)) is Blocking),
            (final(self)@, r) == kind_lock_step((*old(self)) is Blocking, old(self)@, tid),
    {
        match self {
            MutexKind::Spin(m) => m.lock(tid),
            MutexKind::Blocking(m) => m.lock(tid),
        }
    }

    fn unlock(&mut self) -> (r: UnlockOutcome)
        ensures
            ((*final(self)) is Blocking) == ((*old(self)) is Blocking),
            (final(self)@, r) == kind_unlock_step((*old(self)) is Blocking, old(self)@),
    {
        match self {
            MutexKind::Spin(m) => m.unlock(),
            MutexKind::Blocking(m) => m.unlock(),
        }
    }

    fn lock_with_mutex_id(&mut self, tid: usize, mutex_id: usize, banker: &mut Banker) -> (r:
        LockOutcome)
        ensures
            ((*final(self)) is Blocking) == ((*old(self)) is Blocking),
            (final(self)@, r) == kind_lock_step((*old(self)) is Blocking, old(self)@, tid),
    {
        match self {
            MutexKind::Spin(m) => m.lock_with_mutex_id(tid, mutex_id, banker),
            MutexKind::Blocking(m) => m.lock_with_mutex_id(tid, mutex_id, banker),
        }
    }

    fn unlock_with_mutex_id(&mut self, tid: usize, mutex_id: usize, banker: &mut Banker) -> (r:
        UnlockOutcome)
        ensures
            ((*final(self)) is Blocking) == ((*old(self)) is Blocking),
            (final(self)@, r) == kind_unlock_step((*old(self)) is Blocking, old(self)@),
    {
        match self {
            MutexKind::Spin(m) => m.unlock_with_mutex_id(tid, mutex_id, banker),
            MutexKind::Blocking(m) => m.unlock_with_mutex_id(tid, mutex_id, banker),
        }
    }
}

/// One unit of a blocking mutex's resource is free exactly when the mutex is
/// free: `lock_with_mutex_id` keeps this. (A blocked caller's later
/// `lock_resumed_with_mutex_id` leaves `available` alone.)
pub proof fn lemma_blocking_lock_keeps_available(
    m: (bool, Seq<usize>),
    tid: usize,
    b0: Banker,
    b1: Banker,
    rid: nat,
)
    requires
        rid < b0.available@.len(),
        b0.available@[rid as int] == (if m.0 { 0i32 } else { 1i32 }),
        blocking_lock_step(m, tid).1 == LockOutcome::Acquired ==> granted(b0, b1, tid as nat, rid),
        blocking_lock_step(m, tid).1 != LockOutcome::Acquired ==> b1 == b0,
    ensures
        b1.available@[rid as int] == (if blocking_lock_step(m, tid).0.0 { 0i32 } else { 1i32 }),
{
}

/// `unlock_with_mutex_id` on a held blocking mutex keeps the same link: a
/// released mutex frees its unit, a handed-over one keeps it taken.
pub proof fn lemma_blocking_unlock_keeps_available(
    m: (bool, Seq<usize>),
    tid: usize,
    b0: Banker,
    b1: Banker,
    rid: nat,
)
    requires
        m.0,
        rid < b0.available@.len(),
        b0.available@[rid as int] == 0,
        blocking_unlock_step(m).1 == UnlockOutcome::Released ==> released(b0, b1, tid as nat, rid),
        blocking_unlock_step(m).1 is HandedOver ==> passed_on(b0, b1, tid as nat, rid),
    ensures
        b1.available@[rid as int] == (if blocking_unlock_step(m).0.0 { 0i32 } else { 1i32 }),
{
}

/// A free blocking lock with nobody waiting, locked and then unlocked, is
/// free again with nobody waiting; the lock was acquired and released.
pub proof fn lemma_blocking_lock_unlock_restores(tid: usize)
    ensures
        blocking_lock_step((false, Seq::<usize>::empty()), tid).1 == LockOutcome::Acquired,
        blocking_unlock_step(blocking_lock_step((false, Seq::<usize>::empty()), tid).0) == (
            (false, Seq::<usize>::empty()),
            UnlockOutcome::Released,
        ),
{
}

/// The state of a blocking lock after `k` unlocks starting from `m`, and the
/// threads those unlocks handed the lock to, in order.
pub open spec fn unlock_times(m: (bool, Seq<usize>), k: nat) -> ((bool, Seq<usize>), Seq<usize>)
    decreases k,
{
    if k == 0 {
        (m, Seq::empty())
    } else {
        let (m1, woken) = unlock_times(m, (k - 1) as nat);
        let (m2, r) = blocking_unlock_step(m1);
        (m2, match r {
            UnlockOutcome::HandedOver(t) => woken.push(t),
            UnlockOutcome::Released => woken,
        })
    }
}

/// Waiters get a held blocking lock in the order they arrived: `k` unlocks
/// (no more than there are waiters) hand it to the first `k` waiters and
/// leave it held with the others still queued.
pub proof fn lemma_blocking_waiters_served_in_order(q: Seq<usize>, k: nat)
    requires
        k <= q.len(),
    ensures
        unlock_times((true, q), k) == ((true, q.skip(k as int)), q.take(k as int)),
    decreases k,
{
    if k > 0 {
        lemma_blocking_waiters_served_in_order(q, (k - 1) as nat);
        let rest = q.skip(k - 1);
        assert(rest.drop_first() =~= q.skip(k as int));
        assert(rest[0] == q[k - 1]);
        assert(q.take(k - 1).push(q[k - 1]) =~= q.take(k as int));
    } else {
        assert(q.skip(0) =~= q);
        assert(q.take(0) =~= Seq::<usize>::empty());
    }
}

/// A lock attempt on a held blocking mutex queues the caller behind every
/// thread already waiting and leaves the mutex held; on a free one the
/// caller gets it and nobody is queued.
pub proof fn lemma_blocking_lock_queues_at_the_back(m: (bool, Seq<usize>), tid: usize)
    ensures
        m.0 ==> blocking_lock_step(m, tid) == ((true, m.1.push(tid)), LockOutcome::Blocked),
        !m.0 ==> blocking_lock_step(m, tid) == ((true, m.1), LockOutcome::Acquired),
        blocking_lock_step(m, tid).0.1.len() == m.1.len() + (if m.0 { 1int } else { 0int }),
        m.0 ==> blocking_lock_step(m, tid).0.1.last() == tid,
        forall|k: int| 0 <= k < m.1.len() ==> #[trigger] blocking_lock_step(m, tid).0.1[k] == m.1[k],
{
}

/// An unlock of a blocking mutex with waiters hands it to the thread that
/// has waited longest and keeps the others in order; with none it frees it.
pub proof fn lemma_blocking_unlock_wakes_the_front(m: (bool, Seq<usize>))
    ensures
        m.1.len() > 0 ==> blocking_unlock_step(m) == ((true, m.1.drop_first()), UnlockOutcome::HandedOver(m.1[0])),
        m.1.len() == 0 ==> blocking_unlock_step(m) == ((false, m.1), UnlockOutcome::Released),
{
}

/// The state of a blocking lock after threads `ts` try to lock it in turn.
pub open spec fn lock_all(m: (bool, Seq<usize>), ts: Seq<usize>) -> (bool, Seq<usize>)
    decreases ts.len(),
{
    if ts.len() == 0 {
        m
    } else {
        blocking_lock_step(lock_all(m, ts.drop_last()), ts.last()).0
    }
}

/// Arrival order is service order: when threads `ts` try, one after the
/// other, to lock a held blocking mutex nobody waits for, the next `ts.len()`
/// unlocks hand it to exactly those threads in the order they came, and the
/// mutex is still held with nobody waiting.
pub proof fn lemma_blocking_arrival_order_is_service_order(ts: Seq<usize>)
    ensures
        lock_all((true, Seq::<usize>::empty()), ts) == (true, ts),
        unlock_times(lock_all((true, Seq::<usize>::empty()), ts), ts.len()) == (
            (true, Seq::<usize>::empty()),
            ts,
        ),
    decreases ts.len(),
{
    if ts.len() > 0 {
        lemma_blocking_arrival_order_is_service_order(ts.drop_last());
        assert(ts.drop_last().push(ts.last()) =~= ts);
    } else {
        assert(ts =~= Seq::<usize>::empty());
    }
    lemma_blocking_waiters_served_in_order(ts, ts.len());
    assert(ts.skip(ts.len() as int) =~= Seq::<usize>::empty());
    assert(ts.take(ts.len() as int) =~= ts);
}

} // verus!
