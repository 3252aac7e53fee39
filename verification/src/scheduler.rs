//! Stride scheduling: the ready queue, the pass added on each return to it,
//! the choice of the task with the smallest stride, and the pid table.
//!
//! Strides are 8-bit and wrap. Two strides are compared by the sign of their
//! 8-bit difference, which orders them correctly as long as all strides in
//! the queue lie within `BIG_STRIDE / 2` of one another; with priorities of
//! at least 2 that spread is kept (see `lemma_stride_window_kept`).
use vstd::prelude::*;
use std::collections::BTreeMap;
use std::collections::VecDeque;

verus! {

broadcast use vstd::laws_cmp::group_laws_cmp;

/// The stride scale: a task of priority `p` advances by `BIG_STRIDE / p`.
pub const BIG_STRIDE: u8 = 255;

/// What the scheduler knows of a task.
#[derive(PartialEq, Eq, Structural, Clone, Copy, Debug)]
pub struct TaskEntry {
    pub pid: usize,
    /// The task's position in virtual time, wrapping at 256.
    pub stride: u8,
    /// Scheduling priority; must not be zero.
    pub priority: u8,
}

/// The pass of a task of priority `priority`.
pub open spec fn pass(priority: u8) -> u8 {
    (BIG_STRIDE / priority) as u8
}

/// The task with its stride advanced by one pass, wrapping at 256.
pub open spec fn advanced(t: TaskEntry) -> TaskEntry {
    TaskEntry { stride: ((t.stride + pass(t.priority)) % 256) as u8, ..t }
}

/// Stride `a` is behind stride `b`: their 8-bit difference `a - b` is
/// negative as a signed byte.
pub open spec fn stride_before(a: u8, b: u8) -> bool {
    (a as int - b as int) % 256 >= 128
}

/// The index a left-to-right scan of the first `n` tasks settles on when it
/// keeps the current choice unless a later task's stride is behind it.
pub open spec fn scan_min(q: Seq<TaskEntry>, n: nat) -> int
    decreases n,
{
    if n <= 1 {
        0
    } else {
        let p = scan_min(q, (n - 1) as nat);
        if stride_before(q[n - 1].stride, q[p].stride) {
            n - 1
        } else {
            p
        }
    }
}

/// Tasks waiting for the processor, in the order they became ready.
pub struct TaskManager {
    ready_queue: VecDeque<TaskEntry>,
}

impl View for TaskManager {
    type V = Seq<TaskEntry>;

    /// The ready queue, oldest first.
    closed spec fn view(&self) -> Seq<TaskEntry> {
        self.ready_queue@
    }
}

proof fn lemma_scan_min_range(q: Seq<TaskEntry>, n: nat)
    ensures
        n >= 1 ==> 0 <= scan_min(q, n) < n,
        n == 0 ==> scan_min(q, n) == 0,
    decreases n,
{
    if n > 1 {
        lemma_scan_min_range(q, (n - 1) as nat);
    }
}

impl TaskManager {
    /// An empty ready queue.
    pub fn new() -> (m: Self)
        ensures
            m@ == Seq::<TaskEntry>::empty(),
    {
        TaskManager { ready_queue: VecDeque::new() }
    }

    /// Puts `task` back at the end of the ready queue, its stride advanced
    /// by one pass.
    pub fn add(&mut self, task: TaskEntry)
        requires
            task.priority != 0,
        ensures
            final(self)@ == old(self)@.push(advanced(task)),
            final(self)@.len() == old(self)@.len() + 1,
            final(self)@.last().pid == task.pid,
            final(self)@.last().priority == task.priority,
            final(self)@.last().stride as int
                == (task.stride as int + BIG_STRIDE as int / task.priority as int) % 256,
    {
        let mut task = task;
        task.stride = task.stride.wrapping_add(BIG_STRIDE / task.priority);
        self.ready_queue.push_back(task);
    }

    /// Takes the task with the smallest stride out of the ready queue (the
    /// first such task when strides tie); `None` when the queue is empty.
    pub fn fetch(&mut self) -> (r: Option<TaskEntry>)
        ensures
            old(self)@.len() == 0 ==> r is None && final(self)@ == old(self)@,
            old(self)@.len() > 0 ==> {
                let i = scan_min(old(self)@, old(self)@.len());
                &&& 0 <= i < old(self)@.len()
                &&& r == Some(old(self)@[i])
                &&& final(self)@ == old(self)@.remove(i)
            },
    {
        let len = self.ready_queue.len();
        if len == 0 {
            return None;
        }
        let mut index: usize = 0;
        let mut min_stride = self.ready_queue[0].stride;
        let mut i: usize = 1;
        while i < len
            invariant
                1 <= i <= len,
                len == self.ready_queue@.len(),
                self.ready_queue@ == old(self)@,
                index == scan_min(self.ready_queue@, i as nat),
                index < i,
                min_stride == self.ready_queue@[index as int].stride,
            decreases len - i,
        {
            proof {
                lemma_scan_min_range(self.ready_queue@, i as nat);
            }
            let stride = self.ready_queue[i].stride;
            // The 8-bit difference has its top bit set: negative as a signed byte.
            if stride.wrapping_sub(min_stride) >= 128 {
                index = i;
                min_stride = stride;
            }
            i += 1;
        }
        self.ready_queue.remove(index)
    }
}

/// Records `task` under its pid and puts it in the ready queue with its
/// stride advanced by one pass; the table holds the task as queued.
pub fn add_task(manager: &mut TaskManager, pid2task_map: &mut BTreeMap<usize, TaskEntry>, task: TaskEntry)
    requires
        task.priority != 0,
    ensures
        final(manager)@ == old(manager)@.push(advanced(task)),
        final(pid2task_map)@ == old(pid2task_map)@.insert(task.pid, advanced(task)),
        final(manager)@.last().stride as int
            == (task.stride as int + BIG_STRIDE as int / task.priority as int) % 256,
        final(pid2task_map)@[task.pid].stride as int
            == (task.stride as int + BIG_STRIDE as int / task.priority as int) % 256,
{
    manager.add(task);
    let queued = advanced_entry(task);
    pid2task_map.insert(task.pid, queued);
}

/// The task with its stride advanced by one pass.
fn advanced_entry(task: TaskEntry) -> (t: TaskEntry)
    requires
        task.priority != 0,
    ensures
        t == advanced(task),
        t.pid == task.pid,
        t.priority == task.priority,
        t.stride as int == (task.stride as int + BIG_STRIDE as int / task.priority as int) % 256,
{
    TaskEntry { stride: task.stride.wrapping_add(BIG_STRIDE / task.priority), ..task }
}

/// Takes the next task to run out of the ready queue, as `TaskManager::fetch`.
pub fn fetch_task(manager: &mut TaskManager) -> (r: Option<TaskEntry>)
    ensures
        old(manager)@.len() == 0 ==> r is None && final(manager)@ == old(manager)@,
        old(manager)@.len() > 0 ==> {
            let i = scan_min(old(manager)@, old(manager)@.len());
            &&& 0 <= i < old(manager)@.len()
            &&& r == Some(old(manager)@[i])
            &&& final(manager)@ == old(manager)@.remove(i)
        },
{
    manager.fetch()
}

/// The task recorded under `pid`, if any.
pub fn pid2task(pid2task_map: &BTreeMap<usize, TaskEntry>, pid: usize) -> (r: Option<TaskEntry>)
    ensures
        r == (if pid2task_map@.contains_key(pid) { Some(pid2task_map@[pid]) } else { None }),
{
    match pid2task_map.get(&pid) {
        Some(t) => Some(*t),
        None => None,
    }
}

/// Forgets the task recorded under `pid`, which must be there.
pub fn remove_from_pid2task(pid2task_map: &mut BTreeMap<usize, TaskEntry>, pid: usize)
    requires
        old(pid2task_map)@.contains_key(pid),
    ensures
        final(pid2task_map)@ == old(pid2task_map)@.remove(pid),
{
    let _ = pid2task_map.remove(&pid);
}

/// A task put back in the ready queue moves ahead by exactly
/// `BIG_STRIDE / priority`, wrapping at 256, whatever its priority: the pass
/// is the stride scale divided by the priority and nothing else.
pub proof fn lemma_pass_is_big_stride_over_priority(t: TaskEntry)
    requires
        t.priority >= 1,
    ensures
        pass(t.priority) as int == BIG_STRIDE as int / t.priority as int,
        advanced(t).stride as int == (t.stride as int + BIG_STRIDE as int / t.priority as int) % 256,
        advanced(t).pid == t.pid,
        advanced(t).priority == t.priority,
{
}

/// How far stride `x` is ahead of stride `base`, going round the 8-bit circle.
pub open spec fn ahead(x: u8, base: u8) -> int {
    (x as int - base as int) % 256
}

/// Every task's stride is at most `BIG_STRIDE / 2` ahead of `base`.
pub open spec fn in_window(q: Seq<TaskEntry>, base: u8) -> bool {
    forall|k: int| 0 <= k < q.len() ==> ahead(#[trigger] q[k].stride, base) <= 127
}

/// Distances round the circle compose: the distance from `b` to `a` is the
/// difference of their distances from `base`, taken modulo 256.
proof fn lemma_ahead_diff(a: u8, b: u8, base: u8)
    ensures
        ahead(a, b) == (if ahead(a, base) >= ahead(b, base) {
            ahead(a, base) - ahead(b, base)
        } else {
            ahead(a, base) - ahead(b, base) + 256
        }),
{
    let da = ahead(a, base);
    let db = ahead(b, base);
    assert(0 <= da < 256 && 0 <= db < 256);
    assert(a as int - base as int == da || a as int - base as int == da - 256);
    assert(b as int - base as int == db || b as int - base as int == db - 256);
}

/// Within a window, "behind" compares the distances from the window's base.
proof fn lemma_before_in_window(a: u8, b: u8, base: u8)
    requires
        ahead(a, base) <= 127,
        ahead(b, base) <= 127,
    ensures
        stride_before(a, b) <==> ahead(a, base) < ahead(b, base),
{
    lemma_ahead_diff(a, b, base);
}

/// When every stride lies within `BIG_STRIDE / 2` ahead of some base, the
/// scan picks a task with the smallest stride, and the first such task:
/// every task before it is strictly ahead of it.
pub proof fn lemma_scan_min_is_first_minimum(q: Seq<TaskEntry>, base: u8, n: nat)
    requires
        in_window(q, base),
        1 <= n <= q.len(),
    ensures
        0 <= scan_min(q, n) < n,
        forall|k: int|
            0 <= k < n ==> ahead(q[scan_min(q, n)].stride, base) <= ahead(#[trigger] q[k].stride, base),
        forall|k: int|
            0 <= k < scan_min(q, n) ==> ahead(q[scan_min(q, n)].stride, base) < ahead(
                #[trigger] q[k].stride,
                base,
            ),
    decreases n,
{
    lemma_scan_min_range(q, n);
    if n > 1 {
        lemma_scan_min_is_first_minimum(q, base, (n - 1) as nat);
        let p = scan_min(q, (n - 1) as nat);
        lemma_before_in_window(q[n - 1].stride, q[p].stride, base);
    }
}

/// The spread of strides is kept: if all strides lie within
/// `BIG_STRIDE / 2` ahead of some base, and the task the scan picks has
/// priority at least 2, then after it runs and comes back with its pass
/// added, all strides lie within `BIG_STRIDE / 2` ahead of its old stride.
pub proof fn lemma_stride_window_kept(q: Seq<TaskEntry>, base: u8)
    requires
        in_window(q, base),
        q.len() > 0,
        q[scan_min(q, q.len())].priority >= 2,
    ensures
        in_window(
            q.remove(scan_min(q, q.len())).push(advanced(q[scan_min(q, q.len())])),
            q[scan_min(q, q.len())].stride,
        ),
{
    let i = scan_min(q, q.len());
    lemma_scan_min_is_first_minimum(q, base, q.len());
    let t = q[i];
    let q2 = q.remove(i).push(advanced(t));
    assert(pass(t.priority) <= 127) by {
        assert(BIG_STRIDE / t.priority <= 127) by (nonlinear_arith)
            requires
                t.priority >= 2,
        ;
    }
    assert forall|k: int| 0 <= k < q2.len() implies ahead(#[trigger] q2[k].stride, t.stride) <= 127 by {
        if k < q2.len() - 1 {
            let j = if k < i { k } else { k + 1 };
            assert(q2[k] == q[j]);
            lemma_ahead_diff(q[j].stride, t.stride, base);
            assert(ahead(t.stride, base) <= ahead(q[j].stride, base));
        } else {
            assert(q2[k] == advanced(t));
        }
    }
}

} // verus!
