//! Thread control blocks and the plain records the introspection syscalls
//! fill in.
use vstd::prelude::*;

verus! {

/// Number of syscall slots in a thread's invocation histogram.
pub const MAX_SYSCALL_NUM: usize = 500;

/// Distance a thread with priority 1 would travel per dispatch; a thread's
/// stride is this constant divided by its priority.
pub const BIG_STRIDE: u64 = 0x10_0000;

/// Priority every new thread starts with.
pub const DEFAULT_PRIORITY: u64 = 16;

/// Where a thread stands in its life cycle.
#[derive(Clone, Copy, PartialEq, Eq, Structural, Debug)]
pub enum TaskStatus {
    /// Runnable and waiting in the ready queue.
    Ready,
    /// The one thread the scheduler has dispatched.
    Running,
    /// Parked on a primitive, a timer or a wait queue.
    Blocked,
    /// Terminated; only its exit bookkeeping remains.
    Zombie,
}

/// Time split into whole seconds and residual microseconds.
#[derive(Clone, Copy, PartialEq, Eq, Structural, Debug)]
pub struct TimeVal {
    /// The number of seconds.
    pub sec: usize,
    /// The number of microseconds.
    pub usec: usize,
}

/// What `sys_task_info` reports about the calling thread.
pub struct TaskInfo {
    /// Where the thread stands in its life cycle.
    pub status: TaskStatus,
    /// How often the thread has made each syscall, indexed by syscall
    /// number. A fixed-size record of `MAX_SYSCALL_NUM` entries, held as a
    /// vector whose length the contracts pin.
    pub syscall_times: Vec<u32>,
    /// Total running time of the thread, in milliseconds.
    pub time: usize,
}

/// One thread: identity, life-cycle status, the return-value slot of its
/// saved trap context, stride-scheduling state, bookkeeping, and its
/// per-resource ledger for deadlock detection.
pub struct Thread {
    /// Thread id, unique within the owning process.
    pub tid: usize,
    /// Where the thread stands in its life cycle.
    pub status: TaskStatus,
    /// Return-value slot of the saved trap context: what the thread sees
    /// as its syscall's result when it next runs.
    pub ret_val: isize,
    /// Stride-scheduling weight; at least 2.
    pub priority: u64,
    /// Accumulated stride distance; the ready thread with the least runs
    /// next.
    pub pass: u64,
    /// Per-syscall invocation histogram, `MAX_SYSCALL_NUM` entries.
    pub syscall_times: Vec<u32>,
    /// Accumulated running time in milliseconds.
    pub time_ms: usize,
    /// Units of each mutex the thread holds, by mutex id.
    pub mutex_own: Vec<i64>,
    /// Units of each mutex the thread requests, by mutex id.
    pub mutex_require: Vec<i64>,
    /// Units of each semaphore the thread holds, by semaphore id.
    pub sem_own: Vec<i64>,
    /// Units of each semaphore the thread requests, by semaphore id.
    pub sem_require: Vec<i64>,
}

/// A freshly created vector of `n` zero counts.
pub fn zero_counts(n: usize) -> (v: Vec<i64>)
    ensures
        v@.len() == n,
        forall|i: int| 0 <= i < n ==> v@[i] == 0,
{
    let mut v: Vec<i64> = Vec::new();
    let mut i: usize = 0;
    while i < n
        invariant
            i <= n,
            v@.len() == i,
            forall|j: int| 0 <= j < i ==> v@[j] == 0,
        decreases n - i,
    {
        v.push(0);
        i = i + 1;
    }
    v
}

/// A freshly created histogram of `n` zero entries.
pub fn zero_histogram(n: usize) -> (v: Vec<u32>)
    ensures
        v@.len() == n,
        forall|i: int| 0 <= i < n ==> v@[i] == 0,
{
    let mut v: Vec<u32> = Vec::new();
    let mut i: usize = 0;
    while i < n
        invariant
            i <= n,
            v@.len() == i,
            forall|j: int| 0 <= j < i ==> v@[j] == 0,
        decreases n - i,
    {
        v.push(0);
        i = i + 1;
    }
    v
}

impl Thread {
    /// A fresh ready thread with id `tid`, zeroed ledgers sized for the
    /// owning process's current resource tables, and default scheduling
    /// state.
    pub fn new(tid: usize, n_mutex: usize, n_sem: usize) -> (th: Thread)
        ensures
            th.tid == tid,
            th.status == TaskStatus::Ready,
            th.ret_val == 0,
            th.priority == DEFAULT_PRIORITY,
            th.pass == 0,
            th.syscall_times@.len() == MAX_SYSCALL_NUM,
            forall|i: int| 0 <= i < MAX_SYSCALL_NUM ==> th.syscall_times@[i] == 0,
            th.time_ms == 0,
            th.mutex_own@.len() == n_mutex,
            th.mutex_require@.len() == n_mutex,
            th.sem_own@.len() == n_sem,
            th.sem_require@.len() == n_sem,
            forall|i: int| 0 <= i < n_mutex ==> th.mutex_own@[i] == 0 && th.mutex_require@[i] == 0,
            forall|i: int| 0 <= i < n_sem ==> th.sem_own@[i] == 0 && th.sem_require@[i] == 0,
    {
        Thread {
            tid,
            status: TaskStatus::Ready,
            ret_val: 0,
            priority: DEFAULT_PRIORITY,
            pass: 0,
            syscall_times: zero_histogram(MAX_SYSCALL_NUM),
            time_ms: 0,
            mutex_own: zero_counts(n_mutex),
            mutex_require: zero_counts(n_mutex),
            sem_own: zero_counts(n_sem),
            sem_require: zero_counts(n_sem),
        }
    }
}

} // verus!

