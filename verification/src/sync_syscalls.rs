//! The per-process tables behind the mutex, semaphore and condition-variable
//! system calls, and the decisions those calls take on them: which slot a new
//! object gets, and whether a lock or `down` request passes the banker's check.
//!
//! Mutexes are the library's own state machines; semaphores and condition
//! variables (`S`, `C`) are opaque here. Blocking, yielding and waking are the
//! caller's work, done between a request and its completion.
use vstd::prelude::*;
use crate::mutex::{kind_lock_step, kind_unlock_step, LockOutcome, Mutex, MutexKind, UnlockOutcome};
use crate::banker::{
    add_entry, entry, expand, first_fit_safe, grant_ready, granted, released, grant_unit, is_safe_state, lemma_add_entry_undone,
    lemma_request_of_free_unit_keeps_safe, nonneg_matrix, pad_row, release_ready, release_unit,
    set_entry, set_slot, Banker,
};

verus! {

/// Returned when the banker refuses a request that would make the state unsafe.
pub const DEADLOCK_REFUSED: isize = -0xdead;

/// Synchronisation objects of one process and their banker tables.
pub struct ProcessSync<S, C> {
    pub mutex_list: Vec<Option<MutexKind>>,
    pub semaphore_list: Vec<Option<S>>,
    pub condvar_list: Vec<Option<C>>,
    /// Banker tables whose resources are the mutexes.
    pub mutex_banker: Banker,
    /// Banker tables whose resources are the semaphores.
    pub semaphore_banker: Banker,
    /// Whether lock and `down` requests go through the safety check.
    pub is_enable: bool,
}

/// `id` is where a new object goes: the first empty slot, or the end.
pub open spec fn slot_for<T>(list: Seq<Option<T>>, id: int) -> bool {
    &&& 0 <= id <= list.len()
    &&& forall|k: int| 0 <= k < id ==> (#[trigger] list[k]) is Some
    &&& id < list.len() ==> list[id] is None
}

/// The list after `item` has been stored in slot `id`.
pub open spec fn placed<T>(list: Seq<Option<T>>, id: int, item: T) -> Seq<Option<T>> {
    if id < list.len() {
        list.update(id, Some(item))
    } else {
        list.push(Some(item))
    }
}

/// Stores `item` in the first empty slot, or appends it; returns the slot.
fn place<T>(list: &mut Vec<Option<T>>, item: T) -> (id: usize)
    ensures
        slot_for(old(list)@, id as int),
        final(list)@ == placed(old(list)@, id as int, item),
{
    let mut i: usize = 0;
    while i < list.len()
        invariant
            i <= list@.len(),
            list@ == old(list)@,
            forall|k: int| 0 <= k < i ==> (#[trigger] list@[k]) is Some,
        decreases list@.len() - i,
    {
        if list[i].is_none() {
            list.set(i, Some(item));
            return i;
        }
        i += 1;
    }
    list.push(Some(item));
    i
}

/// Registers a request for one unit of `rid` by `tid`; when the check is on
/// and the state with the request is not safe, withdraws it again and
/// returns `false`.
fn request_unit(b: &mut Banker, check: bool, tid: usize, rid: usize) -> (admitted: bool)
    requires
        old(b).wf(),
        tid < usize::MAX,
        rid < old(b).available@.len(),
        entry(old(b).need_m(), tid as int, rid as int) < i32::MAX,
    ensures
        final(b).wf(),
        final(b).available == old(b).available,
        final(b).alloc_m() == expand(old(b).alloc_m(), tid as nat + 1, old(b).available@.len()),
        request_outcome(*old(b), *final(b), check, tid as nat, rid as nat, admitted),
{
    b.add_need(tid, rid, 1);
    proof {
        crate::banker::lemma_add_entry_entry(old(b).need_m(), tid as nat, rid as nat, old(b).available@.len(), 1);
        crate::banker::lemma_add_entry_expanded(old(b).alloc_m(), tid as nat, rid as nat, old(b).available@.len(), 0);
    }
    if check {
        if !b.banker_check() {
            b.add_need(tid, rid, -1);
            proof {
                lemma_add_entry_undone(old(b).need_m(), tid as nat, rid as nat, old(b).available@.len(), 1);
            }
            return false;
        }
    }
    true
}

/// How a request for one unit of `rid` by `tid` ends, given the tables
/// before (`pre`) and after (`post`) it.
///
/// The request adds one to `need[tid][rid]`. Unchecked, it always passes.
/// Checked, it passes exactly when a first-fit run over the tables with the
/// request lets every thread finish; so it passes only if the state with the
/// request is safe, and whenever that state is safe and no thread holds a
/// negative amount;
/// a refused request leaves `need` as it was, apart from zero padding.
pub open spec fn request_outcome(
    pre: Banker,
    post: Banker,
    check: bool,
    tid: nat,
    rid: nat,
    admitted: bool,
) -> bool {
    let r = pre.available@.len();
    let candidate = add_entry(pre.need_m(), tid, rid, r, 1);
    let alloc = post.alloc_m();
    let n = post.allocation@.len();
    &&& !check ==> admitted
    &&& check ==> (admitted <==> first_fit_safe(post.available@, alloc, candidate, n))
    &&& admitted ==> post.need_m() == candidate
    &&& admitted && check ==> is_safe_state(post.available@, alloc, candidate, n)
    &&& !admitted ==> post.need_m() == expand(pre.need_m(), tid + 1, r)
    &&& check && nonneg_matrix(alloc, n, r) && is_safe_state(post.available@, alloc, candidate, n)
        ==> admitted
}

impl<S, C> ProcessSync<S, C> {
    /// Each object list fits its banker's available vector, whose matrices
    /// have one row per thread.
    pub open spec fn wf(&self) -> bool {
        &&& self.mutex_banker.wf()
        &&& self.semaphore_banker.wf()
        &&& self.mutex_list@.len() <= self.mutex_banker.available@.len()
        &&& self.semaphore_list@.len() <= self.semaphore_banker.available@.len()
    }

    /// Nothing created yet, safety check off.
    pub fn new() -> (p: Self)
        ensures
            p.wf(),
            p.mutex_list@ == Seq::<Option<MutexKind>>::empty(),
            p.semaphore_list@ == Seq::<Option<S>>::empty(),
            p.condvar_list@ == Seq::<Option<C>>::empty(),
            p.mutex_banker.available@ == Seq::<i32>::empty(),
            p.mutex_banker.alloc_m() == Seq::<Seq<i32>>::empty(),
            p.mutex_banker.need_m() == Seq::<Seq<i32>>::empty(),
            p.semaphore_banker.available@ == Seq::<i32>::empty(),
            p.semaphore_banker.alloc_m() == Seq::<Seq<i32>>::empty(),
            p.semaphore_banker.need_m() == Seq::<Seq<i32>>::empty(),
            !p.is_enable,
    {
        ProcessSync {
            mutex_list: Vec::new(),
            semaphore_list: Vec::new(),
            condvar_list: Vec::new(),
            mutex_banker: Banker::new(),
            semaphore_banker: Banker::new(),
            is_enable: false,
        }
    }
}

/// When a sleep of `ms` milliseconds started at `now_ms` ends.
pub fn sleep_deadline(now_ms: usize, ms: usize) -> (expire_ms: usize)
    requires
        now_ms + ms <= usize::MAX,
    ensures
        expire_ms == now_ms + ms,
{
    now_ms + ms
}

/// Stores a new free mutex in the first free slot (or a new one), blocking
/// when `blocking` and spinning otherwise, and registers it with the banker
/// as a resource with one free unit; returns the slot.
pub fn sys_mutex_create<S, C>(p: &mut ProcessSync<S, C>, blocking: bool) -> (id: isize)
    requires
        old(p).wf(),
        old(p).mutex_list@.len() < isize::MAX,
    ensures
        final(p).wf(),
        id >= 0,
        slot_for(old(p).mutex_list@, id as int),
        final(p).mutex_list@[id as int] is Some,
        final(p).mutex_list@ == placed(old(p).mutex_list@, id as int, final(p).mutex_list@[id as int]->0),
        (final(p).mutex_list@[id as int]->0 is Blocking) == blocking,
        final(p).mutex_list@[id as int]->0@ == (false, Seq::<usize>::empty()),
        final(p).mutex_banker.available@ == set_slot(old(p).mutex_banker.available@, id as nat, 1),
        final(p).mutex_banker.allocation == old(p).mutex_banker.allocation,
        final(p).mutex_banker.need == old(p).mutex_banker.need,
        final(p).semaphore_list == old(p).semaphore_list,
        final(p).condvar_list == old(p).condvar_list,
        final(p).semaphore_banker == old(p).semaphore_banker,
        final(p).is_enable == old(p).is_enable,
{
    let mutex = MutexKind::new(blocking);
    let ghost m = mutex;
    let id = place(&mut p.mutex_list, mutex);
    p.mutex_banker.add_new_resouce(id, 1);
    assert(p.mutex_list@[id as int] == Some(m));
    id as isize
}

/// First half of a mutex lock: records that `tid` waits for mutex
/// `mutex_id` and, when detection is on, runs the safety check. Returns 0
/// when the caller may go on to take the mutex with `mutex_try_lock` (and
/// then call `mutex_lock_acquired`), or `DEADLOCK_REFUSED`.
pub fn sys_mutex_lock<S, C>(p: &mut ProcessSync<S, C>, tid: usize, mutex_id: usize) -> (r: isize)
    requires
        old(p).wf(),
        mutex_id < old(p).mutex_list@.len(),
        old(p).mutex_list@[mutex_id as int] is Some,
        tid < usize::MAX,
        entry(old(p).mutex_banker.need_m(), tid as int, mutex_id as int) < i32::MAX,
    ensures
        final(p).wf(),
        r == 0 || r == DEADLOCK_REFUSED,
        final(p).mutex_banker.available == old(p).mutex_banker.available,
        final(p).mutex_banker.alloc_m() == expand(
            old(p).mutex_banker.alloc_m(),
            tid as nat + 1,
            old(p).mutex_banker.available@.len(),
        ),
        request_outcome(
            old(p).mutex_banker,
            final(p).mutex_banker,
            old(p).is_enable,
            tid as nat,
            mutex_id as nat,
            r == 0,
        ),
        final(p).mutex_list == old(p).mutex_list,
        final(p).semaphore_list == old(p).semaphore_list,
        final(p).condvar_list == old(p).condvar_list,
        final(p).semaphore_banker == old(p).semaphore_banker,
        final(p).is_enable == old(p).is_enable,
{
    let check = p.is_enable;
    if request_unit(&mut p.mutex_banker, check, tid, mutex_id) {
        0
    } else {
        DEADLOCK_REFUSED
    }
}

/// Second half of a mutex lock, once `tid` holds mutex `mutex_id`: one unit
/// leaves `available`, joins `allocation` and leaves `need`.
pub fn mutex_lock_acquired<S, C>(p: &mut ProcessSync<S, C>, tid: usize, mutex_id: usize)
    requires
        old(p).wf(),
        mutex_id < old(p).mutex_list@.len(),
        grant_ready(old(p).mutex_banker, tid as nat, mutex_id as nat),
    ensures
        final(p).wf(),
        final(p).mutex_banker.available@ == old(p).mutex_banker.available@.update(
            mutex_id as int,
            (old(p).mutex_banker.available@[mutex_id as int] - 1) as i32,
        ),
        final(p).mutex_banker.alloc_m() == add_entry(
            old(p).mutex_banker.alloc_m(),
            tid as nat,
            mutex_id as nat,
            old(p).mutex_banker.available@.len(),
            1,
        ),
        final(p).mutex_banker.need_m() == add_entry(
            old(p).mutex_banker.need_m(),
            tid as nat,
            mutex_id as nat,
            old(p).mutex_banker.available@.len(),
            -1,
        ),
        final(p).mutex_list == old(p).mutex_list,
        final(p).semaphore_list == old(p).semaphore_list,
        final(p).condvar_list == old(p).condvar_list,
        final(p).semaphore_banker == old(p).semaphore_banker,
        final(p).is_enable == old(p).is_enable,
{
    grant_unit(&mut p.mutex_banker, tid, mutex_id);
}

/// Thread `tid` tries to take mutex `mutex_id`, after `sys_mutex_lock` let
/// it go on. `Acquired`: it holds the mutex and goes on with
/// `mutex_lock_acquired`. `Retry`: it yields and tries again. `Blocked`: it
/// is queued and blocks; when woken it holds the mutex and goes on with
/// `mutex_lock_acquired`.
pub fn mutex_try_lock<S, C>(p: &mut ProcessSync<S, C>, tid: usize, mutex_id: usize) -> (r: LockOutcome)
    requires
        mutex_id < old(p).mutex_list@.len(),
        old(p).mutex_list@[mutex_id as int] is Some,
    ensures
        final(p).mutex_list@.len() == old(p).mutex_list@.len(),
        final(p).mutex_list@[mutex_id as int] is Some,
        final(p).mutex_list@ == old(p).mutex_list@.update(mutex_id as int, final(p).mutex_list@[mutex_id as int]),
        (final(p).mutex_list@[mutex_id as int]->0 is Blocking) == (old(p).mutex_list@[mutex_id as int]->0 is Blocking),
        (final(p).mutex_list@[mutex_id as int]->0@, r) == kind_lock_step(
            old(p).mutex_list@[mutex_id as int]->0 is Blocking,
            old(p).mutex_list@[mutex_id as int]->0@,
            tid,
        ),
        final(p).mutex_banker == old(p).mutex_banker,
        final(p).semaphore_list == old(p).semaphore_list,
        final(p).condvar_list == old(p).condvar_list,
        final(p).semaphore_banker == old(p).semaphore_banker,
        final(p).is_enable == old(p).is_enable,
{
    let mut slot: Option<MutexKind> = None;
    p.mutex_list.set_and_swap(mutex_id, &mut slot);
    let mut m = slot.unwrap();
    let r = m.lock(tid);
    p.mutex_list.set(mutex_id, Some(m));
    proof {
        assert(p.mutex_list@ =~= old(p).mutex_list@.update(mutex_id as int, p.mutex_list@[mutex_id as int]));
    }
    r
}

/// Mutex unlock by `tid`: lets mutex `mutex_id` go (the outcome says
/// whether a waiting thread now holds it and must be woken), and gives one
/// unit of it back from `allocation` to `available`. Returns 0 with the
/// outcome.
pub fn sys_mutex_unlock<S, C>(p: &mut ProcessSync<S, C>, tid: usize, mutex_id: usize) -> (r: (isize, UnlockOutcome))
    requires
        old(p).wf(),
        mutex_id < old(p).mutex_list@.len(),
        old(p).mutex_list@[mutex_id as int] is Some,
        old(p).mutex_list@[mutex_id as int]->0.can_unlock(),
        release_ready(old(p).mutex_banker, tid as nat, mutex_id as nat),
    ensures
        final(p).wf(),
        r.0 == 0,
        final(p).mutex_list@.len() == old(p).mutex_list@.len(),
        final(p).mutex_list@[mutex_id as int] is Some,
        final(p).mutex_list@ == old(p).mutex_list@.update(mutex_id as int, final(p).mutex_list@[mutex_id as int]),
        (final(p).mutex_list@[mutex_id as int]->0 is Blocking) == (old(p).mutex_list@[mutex_id as int]->0 is Blocking),
        (final(p).mutex_list@[mutex_id as int]->0@, r.1) == kind_unlock_step(
            old(p).mutex_list@[mutex_id as int]->0 is Blocking,
            old(p).mutex_list@[mutex_id as int]->0@,
        ),
        final(p).mutex_banker.available@ == old(p).mutex_banker.available@.update(
            mutex_id as int,
            (old(p).mutex_banker.available@[mutex_id as int] + 1) as i32,
        ),
        final(p).mutex_banker.alloc_m() == add_entry(
            old(p).mutex_banker.alloc_m(),
            tid as nat,
            mutex_id as nat,
            old(p).mutex_banker.available@.len(),
            -1,
        ),
        final(p).mutex_banker.need_m() == expand(
            old(p).mutex_banker.need_m(),
            tid as nat + 1,
            old(p).mutex_banker.available@.len(),
        ),
        final(p).semaphore_list == old(p).semaphore_list,
        final(p).condvar_list == old(p).condvar_list,
        final(p).semaphore_banker == old(p).semaphore_banker,
        final(p).is_enable == old(p).is_enable,
{
    let mut slot: Option<MutexKind> = None;
    p.mutex_list.set_and_swap(mutex_id, &mut slot);
    let mut m = slot.unwrap();
    let outcome = m.unlock();
    p.mutex_list.set(mutex_id, Some(m));
    proof {
        assert(p.mutex_list@ =~= old(p).mutex_list@.update(mutex_id as int, p.mutex_list@[mutex_id as int]));
    }
    release_unit(&mut p.mutex_banker, tid, mutex_id);
    (0, outcome)
}

/// Stores a new semaphore made by `make(res_count)` in the first free slot
/// (or a new one) and registers it with the banker with `res_count` free
/// units; returns the slot.
pub fn sys_semaphore_create<S, C, F: FnOnce(usize) -> S>(p: &mut ProcessSync<S, C>, res_count: usize, make: F) -> (id: isize)
    requires
        old(p).wf(),
        old(p).semaphore_list@.len() < isize::MAX,
        call_requires(make, (res_count,)),
    ensures
        final(p).wf(),
        id >= 0,
        slot_for(old(p).semaphore_list@, id as int),
        final(p).semaphore_list@[id as int] is Some,
        call_ensures(make, (res_count,), final(p).semaphore_list@[id as int]->0),
        final(p).semaphore_list@ == placed(old(p).semaphore_list@, id as int, final(p).semaphore_list@[id as int]->0),
        final(p).semaphore_banker.available@ == set_slot(
            old(p).semaphore_banker.available@,
            id as nat,
            res_count as i32,
        ),
        final(p).semaphore_banker.allocation == old(p).semaphore_banker.allocation,
        final(p).semaphore_banker.need == old(p).semaphore_banker.need,
        final(p).mutex_list == old(p).mutex_list,
        final(p).condvar_list == old(p).condvar_list,
        final(p).mutex_banker == old(p).mutex_banker,
        final(p).is_enable == old(p).is_enable,
{
    let sem = make(res_count);
    let ghost made = sem;
    let id = place(&mut p.semaphore_list, sem);
    p.semaphore_banker.add_new_resouce(id, res_count);
    assert(p.semaphore_list@[id as int] == Some(made));
    id as isize
}

/// Banker side of a semaphore `up` by `tid`: one unit of semaphore
/// `sem_id` goes back from `allocation` to `available`. Returns 0.
pub fn sys_semaphore_up<S, C>(p: &mut ProcessSync<S, C>, tid: usize, sem_id: usize) -> (r: isize)
    requires
        old(p).wf(),
        sem_id < old(p).semaphore_list@.len(),
        old(p).semaphore_list@[sem_id as int] is Some,
        release_ready(old(p).semaphore_banker, tid as nat, sem_id as nat),
    ensures
        final(p).wf(),
        r == 0,
        final(p).semaphore_banker.available@ == old(p).semaphore_banker.available@.update(
            sem_id as int,
            (old(p).semaphore_banker.available@[sem_id as int] + 1) as i32,
        ),
        final(p).semaphore_banker.alloc_m() == add_entry(
            old(p).semaphore_banker.alloc_m(),
            tid as nat,
            sem_id as nat,
            old(p).semaphore_banker.available@.len(),
            -1,
        ),
        final(p).semaphore_banker.need_m() == expand(
            old(p).semaphore_banker.need_m(),
            tid as nat + 1,
            old(p).semaphore_banker.available@.len(),
        ),
        final(p).mutex_list == old(p).mutex_list,
        final(p).semaphore_list == old(p).semaphore_list,
        final(p).condvar_list == old(p).condvar_list,
        final(p).mutex_banker == old(p).mutex_banker,
        final(p).is_enable == old(p).is_enable,
{
    release_unit(&mut p.semaphore_banker, tid, sem_id);
    0
}

/// First half of a semaphore `down`: records that `tid` waits for one unit
/// of semaphore `sem_id` and, when detection is on, runs the safety check.
/// Returns 0 when the caller may go on with `down` (and then call
/// `semaphore_down_acquired`), or `DEADLOCK_REFUSED`.
pub fn sys_semaphore_down<S, C>(p: &mut ProcessSync<S, C>, tid: usize, sem_id: usize) -> (r: isize)
    requires
        old(p).wf(),
        sem_id < old(p).semaphore_list@.len(),
        old(p).semaphore_list@[sem_id as int] is Some,
        tid < usize::MAX,
        entry(old(p).semaphore_banker.need_m(), tid as int, sem_id as int) < i32::MAX,
    ensures
        final(p).wf(),
        r == 0 || r == DEADLOCK_REFUSED,
        final(p).semaphore_banker.available == old(p).semaphore_banker.available,
        final(p).semaphore_banker.alloc_m() == expand(
            old(p).semaphore_banker.alloc_m(),
            tid as nat + 1,
            old(p).semaphore_banker.available@.len(),
        ),
        request_outcome(
            old(p).semaphore_banker,
            final(p).semaphore_banker,
            old(p).is_enable,
            tid as nat,
            sem_id as nat,
            r == 0,
        ),
        final(p).mutex_list == old(p).mutex_list,
        final(p).semaphore_list == old(p).semaphore_list,
        final(p).condvar_list == old(p).condvar_list,
        final(p).mutex_banker == old(p).mutex_banker,
        final(p).is_enable == old(p).is_enable,
{
    let check = p.is_enable;
    if request_unit(&mut p.semaphore_banker, check, tid, sem_id) {
        0
    } else {
        DEADLOCK_REFUSED
    }
}

/// Second half of a semaphore `down`, once `tid` got its unit of semaphore
/// `sem_id`: one unit leaves `available`, joins `allocation` and leaves `need`.
pub fn semaphore_down_acquired<S, C>(p: &mut ProcessSync<S, C>, tid: usize, sem_id: usize)
    requires
        old(p).wf(),
        sem_id < old(p).semaphore_list@.len(),
        grant_ready(old(p).semaphore_banker, tid as nat, sem_id as nat),
    ensures
        final(p).wf(),
        final(p).semaphore_banker.available@ == old(p).semaphore_banker.available@.update(
            sem_id as int,
            (old(p).semaphore_banker.available@[sem_id as int] - 1) as i32,
        ),
        final(p).semaphore_banker.alloc_m() == add_entry(
            old(p).semaphore_banker.alloc_m(),
            tid as nat,
            sem_id as nat,
            old(p).semaphore_banker.available@.len(),
            1,
        ),
        final(p).semaphore_banker.need_m() == add_entry(
            old(p).semaphore_banker.need_m(),
            tid as nat,
            sem_id as nat,
            old(p).semaphore_banker.available@.len(),
            -1,
        ),
        final(p).mutex_list == old(p).mutex_list,
        final(p).semaphore_list == old(p).semaphore_list,
        final(p).condvar_list == old(p).condvar_list,
        final(p).mutex_banker == old(p).mutex_banker,
        final(p).is_enable == old(p).is_enable,
{
    grant_unit(&mut p.semaphore_banker, tid, sem_id);
}

/// Stores a new condition variable in the first free slot (or a new one);
/// returns the slot.
pub fn sys_condvar_create<S, C>(p: &mut ProcessSync<S, C>, condvar: C) -> (id: isize)
    requires
        old(p).condvar_list@.len() < isize::MAX,
    ensures
        id >= 0,
        slot_for(old(p).condvar_list@, id as int),
        final(p).condvar_list@ == placed(old(p).condvar_list@, id as int, condvar),
        final(p).mutex_list == old(p).mutex_list,
        final(p).semaphore_list == old(p).semaphore_list,
        final(p).mutex_banker == old(p).mutex_banker,
        final(p).semaphore_banker == old(p).semaphore_banker,
        final(p).is_enable == old(p).is_enable,
{
    let id = place(&mut p.condvar_list, condvar);
    id as isize
}

/// The condition variable a `signal` on `condvar_id` acts on.
pub fn sys_condvar_signal<S, C>(p: &ProcessSync<S, C>, condvar_id: usize) -> (c: &C)
    requires
        condvar_id < p.condvar_list@.len(),
        p.condvar_list@[condvar_id as int] is Some,
    ensures
        p.condvar_list@[condvar_id as int] == Some(*c),
{
    p.condvar_list[condvar_id].as_ref().unwrap()
}

/// The condition variable and the mutex a `wait` on `condvar_id` with
/// `mutex_id` acts on.
pub fn sys_condvar_wait<S, C>(p: &ProcessSync<S, C>, condvar_id: usize, mutex_id: usize) -> (r: (&C, &MutexKind))
    requires
        condvar_id < p.condvar_list@.len(),
        p.condvar_list@[condvar_id as int] is Some,
        mutex_id < p.mutex_list@.len(),
        p.mutex_list@[mutex_id as int] is Some,
    ensures
        p.condvar_list@[condvar_id as int] == Some(*r.0),
        p.mutex_list@[mutex_id as int] == Some(*r.1),
{
    (p.condvar_list[condvar_id].as_ref().unwrap(), p.mutex_list[mutex_id].as_ref().unwrap())
}

/// Turns the safety check on when `enabled` is 1 and off otherwise. Returns 0.
pub fn sys_enable_deadlock_detect<S, C>(p: &mut ProcessSync<S, C>, enabled: usize) -> (r: isize)
    ensures
        r == 0,
        final(p).is_enable == (enabled == 1),
        final(p).mutex_list == old(p).mutex_list,
        final(p).semaphore_list == old(p).semaphore_list,
        final(p).condvar_list == old(p).condvar_list,
        final(p).mutex_banker == old(p).mutex_banker,
        final(p).semaphore_banker == old(p).semaphore_banker,
{
    p.is_enable = enabled == 1;
    0
}

/// A checked request passes when the state is safe, no thread holds a
/// negative amount, the requesting thread waits for no unit of the resource,
/// and a unit of it is free.
pub proof fn lemma_request_of_free_unit_admitted(
    pre: Banker,
    post: Banker,
    tid: nat,
    rid: nat,
    admitted: bool,
)
    requires
        pre.wf(),
        rid < pre.available@.len(),
        request_outcome(pre, post, true, tid, rid, admitted),
        post.available == pre.available,
        post.alloc_m() == expand(pre.alloc_m(), tid + 1, pre.available@.len()),
        nonneg_matrix(post.alloc_m(), post.allocation@.len(), pre.available@.len()),
        is_safe_state(
            pre.available@,
            post.alloc_m(),
            expand(pre.need_m(), tid + 1, pre.available@.len()),
            post.allocation@.len(),
        ),
        entry(pre.need_m(), tid as int, rid as int) == 0,
        pre.available@[rid as int] >= 1,
    ensures
        admitted,
{
    let r = pre.available@.len();
    let e = expand(pre.need_m(), tid + 1, r);
    crate::banker::lemma_expand_entry(pre.need_m(), tid + 1, r, tid as int, rid as int);
    assert(post.alloc_m().len() == post.allocation@.len());
    assert(pre.alloc_m().len() == pre.need_m().len());
    lemma_request_of_free_unit_keeps_safe(
        pre.available@,
        post.alloc_m(),
        e,
        post.allocation@.len(),
        tid as int,
        rid as int,
    );
    assert(add_entry(pre.need_m(), tid, rid, r, 1) == set_entry(e, tid as int, rid as int, 1));
}


/// In a safe state where every table row covers every resource and nothing
/// negative is free or held, a checked request for one unit of a resource
/// that has a free unit, by a thread that waits for no unit of it, passes.
pub proof fn lemma_safe_state_admits_request_of_free_unit(
    pre: Banker,
    post: Banker,
    tid: nat,
    rid: nat,
    admitted: bool,
)
    requires
        pre.tables_cover(),
        pre.is_safe(),
        pre.alloc_nonneg(),
        forall|j: int| 0 <= j < pre.available@.len() ==> pre.available@[j] >= 0,
        rid < pre.available@.len(),
        request_outcome(pre, post, true, tid, rid, admitted),
        post.available == pre.available,
        post.alloc_m() == expand(pre.alloc_m(), tid + 1, pre.available@.len()),
        entry(pre.need_m(), tid as int, rid as int) == 0,
        pre.available@[rid as int] >= 1,
    ensures
        admitted,
{
    let r = pre.available@.len();
    let n = pre.allocation@.len();
    assert forall|i: int| 0 <= i < n implies (#[trigger] pre.alloc_m()[i]).len() >= r by {
        assert(pre.alloc_m()[i] == pre.allocation@[i]@);
    }
    assert forall|i: int| 0 <= i < n implies (#[trigger] pre.need_m()[i]).len() >= r by {
        assert(pre.need_m()[i] == pre.need@[i]@);
    }
    crate::banker::lemma_expand_keeps_safe(pre.available@, pre.alloc_m(), pre.need_m(), n, tid + 1);
    let a2 = post.alloc_m();
    let m = if n >= tid + 1 { n } else { tid + 1 };
    assert(a2.len() == m);
    assert(post.allocation@.len() == m);
    assert(nonneg_matrix(a2, m, r)) by {
        assert(pad_row(Seq::<i32>::empty(), r) =~= crate::banker::zeros(r));
        assert forall|i: int, j: int| 0 <= i < m && 0 <= j < r implies #[trigger] a2[i][j] >= 0 by {
            if i < n {
                assert(a2[i] == pre.alloc_m()[i]);
            }
        }
    }
    lemma_request_of_free_unit_admitted(pre, post, tid, rid, admitted);
}

/// Round trip of the mutex calls: when thread `tid`'s lock request on an
/// idle mutex `rid` is admitted (`b0` to `b1`), the lock attempt acquires it,
/// the acquisition is booked (`b1` to `b2`) and the unlock gives it back
/// (`b2` to `b3`), the mutex is idle again and the banker's tables are as
/// they were, apart from zero padding.
pub proof fn lemma_mutex_lock_unlock_round_trip(
    b0: Banker,
    b1: Banker,
    b2: Banker,
    b3: Banker,
    check: bool,
    tid: usize,
    rid: nat,
    blocking: bool,
)
    requires
        b0.wf(),
        rid < b0.available@.len(),
        entry(b0.need_m(), tid as int, rid as int) < i32::MAX,
        request_outcome(b0, b1, check, tid as nat, rid, true),
        b1.available == b0.available,
        b1.alloc_m() == expand(b0.alloc_m(), tid as nat + 1, b0.available@.len()),
        grant_ready(b1, tid as nat, rid),
        granted(b1, b2, tid as nat, rid),
        released(b2, b3, tid as nat, rid),
    ensures
        kind_lock_step(blocking, (false, Seq::<usize>::empty()), tid).1 == LockOutcome::Acquired,
        kind_unlock_step(blocking, kind_lock_step(blocking, (false, Seq::<usize>::empty()), tid).0) == (
            (false, Seq::<usize>::empty()),
            UnlockOutcome::Released,
        ),
        b3.available@ == b0.available@,
        b3.alloc_m() == expand(b0.alloc_m(), tid as nat + 1, b0.available@.len()),
        b3.need_m() == expand(b0.need_m(), tid as nat + 1, b0.available@.len()),
{
    let r = b0.available@.len();
    let t = tid as nat;
    crate::banker::lemma_expand_entry(b0.need_m(), t + 1, r, t as int, rid as int);
    crate::banker::lemma_expand_entry(b0.alloc_m(), t + 1, r, t as int, rid as int);
    lemma_add_entry_undone(b0.need_m(), t, rid, r, 1);
    crate::banker::lemma_add_entry_expanded(b0.alloc_m(), t, rid, r, 1);
    crate::banker::lemma_add_entry_entry(b0.alloc_m(), t, rid, r, 1);
    lemma_add_entry_undone(b0.alloc_m(), t, rid, r, 1);
    crate::banker::lemma_add_entry_expanded(b0.need_m(), t, rid, r, 0);
    assert(b3.available@ =~= b0.available@);
}

/// Every need cell is 0 or 1, and no thread waits for two resources.
pub open spec fn need_at_most_one(need: Seq<Seq<i32>>) -> bool {
    &&& forall|i: int, j: int| #[trigger] entry(need, i, j) == 0 || entry(need, i, j) == 1
    &&& forall|i: int, j: int, k: int|
        #[trigger] entry(need, i, j) == 1 && #[trigger] entry(need, i, k) == 1 ==> j == k
}

/// Thread `tid` waits for nothing.
pub open spec fn waits_for_nothing(need: Seq<Seq<i32>>, tid: int) -> bool {
    forall|j: int| #[trigger] entry(need, tid, j) == 0
}

/// A thread that waits for nothing asks for one unit at a time, so need
/// cells stay 0 or 1 with at most one 1 per thread: a request by a thread
/// that waits for nothing keeps this, a refused request or a release (which
/// only grow the tables) keeps it, and booking the unit a thread waited for
/// keeps it and leaves that thread waiting for nothing.
pub proof fn lemma_need_at_most_one_kept(need: Seq<Seq<i32>>, tid: nat, rid: nat, r: nat)
    requires
        rid < r,
        need_at_most_one(need),
    ensures
        waits_for_nothing(need, tid as int) ==> need_at_most_one(add_entry(need, tid, rid, r, 1)),
        need_at_most_one(expand(need, tid + 1, r)),
        entry(need, tid as int, rid as int) == 1 ==> {
            &&& need_at_most_one(add_entry(need, tid, rid, r, -1))
            &&& waits_for_nothing(add_entry(need, tid, rid, r, -1), tid as int)
        },
{
    let e = expand(need, tid + 1, r);
    assert forall|i: int, j: int| #[trigger] entry(e, i, j) == entry(need, i, j) by {
        crate::banker::lemma_entry_expand(need, tid + 1, r, i, j);
    }
    if waits_for_nothing(need, tid as int) {
        let up = add_entry(need, tid, rid, r, 1);
        assert(entry(need, tid as int, rid as int) == 0);
        assert forall|i: int, j: int| #[trigger] entry(up, i, j) == if i == tid && j == rid {
            entry(need, i, j) + 1
        } else {
            entry(need, i, j)
        } by {
            crate::banker::lemma_entry_add_entry(need, tid, rid, r, 1, i, j);
        }
        assert forall|i: int, j: int, k: int|
            #[trigger] entry(up, i, j) == 1 && #[trigger] entry(up, i, k) == 1 implies j == k by {
            if i == tid {
                assert(entry(need, i, j) == 0 && entry(need, i, k) == 0);
            }
        }
    }
    if entry(need, tid as int, rid as int) == 1 {
        let down = add_entry(need, tid, rid, r, -1);
        assert forall|i: int, j: int| #[trigger] entry(down, i, j) == if i == tid && j == rid {
            entry(need, i, j) - 1
        } else {
            entry(need, i, j)
        } by {
            crate::banker::lemma_entry_add_entry(need, tid, rid, r, -1, i, j);
        }
        assert forall|j: int| #[trigger] entry(down, tid as int, j) == 0 by {
            if j != rid {
                if entry(need, tid as int, j) == 1 {
                    assert(entry(need, tid as int, rid as int) == 1);
                }
            }
        }
    }
}

} // verus!
