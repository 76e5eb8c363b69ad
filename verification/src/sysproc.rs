//! Process-management syscalls.
//!
//! Each syscall takes the kernel state explicitly and is specified as a
//! transition on it. The trap path that dispatches syscalls and translates
//! user-space pointers is out of scope: arguments arrive as plain values and
//! out-parameters are plain mutable references.
use vstd::prelude::*;

use crate::kernel::{
    entry_ok, kernel_wf, lemma_own_entry_le_sum, lemma_own_sum_congruent, lemma_own_sum_push,
    own_entry, own_sum, proc_wf, procs_eq_except, same_proc_except_tasks, sched_rel, thread_wf,
    CondvarState, Kernel, MutexState, Process, SemState,
};
use crate::mem;
use crate::task::{TaskInfo, TaskStatus, Thread, TimeVal};

verus! {

/// The running thread's (pid, tid); meaningful only while one is running.
pub open spec fn cur_of(k: Kernel) -> (usize, usize) {
    k.running->Some_0
}

/// The running thread's process.
pub open spec fn cur_proc(k: Kernel) -> Process {
    k.procs@[cur_of(k).0 as int]
}

/// The running thread.
pub open spec fn cur_thread(k: Kernel) -> Thread {
    cur_proc(k).tasks@[cur_of(k).1 as int]
}

/// Everything outside the process table agrees between the two kernels.
pub open spec fn same_kernel_except_procs(a: Kernel, b: Kernel) -> bool {
    &&& a.running == b.running
    &&& a.ready == b.ready
    &&& a.sleepers == b.sleepers
    &&& a.programs == b.programs
    &&& a.now_us == b.now_us
}

/// The two task lists carry the same ledgers slot by slot.
pub open spec fn same_ledgers(a: Seq<Thread>, b: Seq<Thread>) -> bool {
    &&& a.len() == b.len()
    &&& forall|t: int|
        0 <= t < a.len() ==> (#[trigger] a[t]).mutex_own@ == b[t].mutex_own@
            && a[t].mutex_require@ == b[t].mutex_require@ && a[t].sem_own@ == b[t].sem_own@
            && a[t].sem_require@ == b[t].sem_require@
}

/// A process stays well formed when only scheduling fields of its threads
/// change and every priority stays at 2 or above.
pub proof fn lemma_proc_wf_same_ledgers(p0: Process, p1: Process)
    requires
        proc_wf(p0),
        same_proc_except_tasks(p1, p0),
        same_ledgers(p1.tasks@, p0.tasks@),
        forall|t: int| 0 <= t < p1.tasks@.len() ==> (#[trigger] p1.tasks@[t]).priority >= 2,
    ensures
        proc_wf(p1),
{
    assert forall|t: int| 0 <= t < p1.tasks@.len() implies thread_wf(
        #[trigger] p1.tasks@[t],
        p1.mutexes@.len() as int,
        p1.sems@.len() as int,
    ) by {
        assert(thread_wf(p0.tasks@[t], p0.mutexes@.len() as int, p0.sems@.len() as int));
    }
    if !p1.zombie {
        assert forall|i: int| 0 <= i < p1.mutexes@.len() implies p1.mutex_status@[i]
            + #[trigger] own_sum(p1.tasks@, i) == 1 by {
            assert forall|t: int| 0 <= t < p1.tasks@.len() implies own_entry(
                #[trigger] p1.tasks@[t],
                i,
            ) == own_entry(p0.tasks@[t], i) by {}
            lemma_own_sum_congruent(p1.tasks@, p0.tasks@, i);
        }
    }
}

/// A process stays well formed when only its address space changes, as
/// long as the heap stays ordered.
pub proof fn lemma_proc_wf_new_mem(p0: Process, p1: Process)
    requires
        proc_wf(p0),
        crate::mem::brk_wf(p1.mem),
        p1.tasks == p0.tasks,
        p1.zombie == p0.zombie,
        p1.mutexes == p0.mutexes,
        p1.mutex_status == p0.mutex_status,
        p1.sems == p0.sems,
        p1.sem_status == p0.sem_status,
        p1.condvars == p0.condvars,
    ensures
        proc_wf(p1),
{
}

/// Returns the calling process's id.
pub fn sys_getpid(k: &Kernel) -> (r: isize)
    requires
        kernel_wf(*k),
        k.running is Some,
    ensures
        r == cur_of(*k).0 as int,
{
    let (p, _t) = k.running.unwrap();
    p as isize
}

/// Sets the calling thread's stride priority. Rejects any priority below 2
/// with -1 and no change; otherwise records the weight and returns it.
pub fn sys_set_priority(k: &mut Kernel, prio: isize) -> (r: isize)
    requires
        kernel_wf(*old(k)),
        old(k).running is Some,
    ensures
        kernel_wf(*final(k)),
        prio <= 1 ==> r == -1 && *final(k) == *old(k),
        prio >= 2 ==> ({
            let (p, t) = cur_of(*old(k));
            &&& r == prio
            &&& same_kernel_except_procs(*final(k), *old(k))
            &&& procs_eq_except(final(k).procs@, old(k).procs@, p as int)
            &&& same_proc_except_tasks(final(k).procs@[p as int], cur_proc(*old(k)))
            &&& final(k).procs@[p as int].tasks@ == cur_proc(*old(k)).tasks@.update(
                t as int,
                (Thread { priority: prio as u64, ..cur_thread(*old(k)) }),
            )
        }),
{
    if prio <= 1 {
        return -1;
    }
    let (p, t) = k.running.unwrap();
    k.procs[p].tasks[t].priority = prio as u64;
    proof {
        let p0 = old(k).procs@[p as int];
        let p1 = k.procs@[p as int];
        assert(p1.tasks@ =~= p0.tasks@.update(
            t as int,
            (Thread { priority: prio as u64, ..p0.tasks@[t as int] }),
        ));
        lemma_proc_wf_same_ledgers(p0, p1);
    }
    prio
}

/// Moves the calling process's program break by `size` bytes and returns
/// the old break, or -1 when the move would leave the heap segment.
pub fn sys_sbrk(k: &mut Kernel, size: i32) -> (r: isize)
    requires
        kernel_wf(*old(k)),
        old(k).running is Some,
    ensures
        kernel_wf(*final(k)),
        same_kernel_except_procs(*final(k), *old(k)),
        procs_eq_except(final(k).procs@, old(k).procs@, cur_of(*old(k)).0 as int),
        ({
            let p = cur_of(*old(k)).0 as int;
            let m0 = cur_proc(*old(k)).mem;
            let p1 = final(k).procs@[p];
            &&& p1.tasks == cur_proc(*old(k)).tasks
            &&& (r == -1) <==> !(m0.heap_bottom <= m0.brk + size <= mem::MAX_USER_VA)
            &&& (r != -1 ==> r == m0.brk as int && p1.mem.brk == m0.brk + size)
            &&& (r == -1 ==> p1.mem.brk == m0.brk)
            &&& p1.mem.pages@ == m0.pages@
            &&& p1.mem.heap_bottom == m0.heap_bottom
        }),
{
    let (p, _t) = k.running.unwrap();
    proof {
        assert(proc_wf(old(k).procs@[p as int]));
    }
    let res = k.procs[p].mem.change_brk(size);
    proof {
        let p0 = old(k).procs@[p as int];
        let p1 = k.procs@[p as int];
        lemma_proc_wf_new_mem(p0, p1);
    }
    match res {
        Some(old_brk) => old_brk as isize,
        None => -1,
    }
}

/// Maps `[start, start + len)` in the calling process's address space with
/// the permissions `port` grants; fails with -1, changing nothing, on a
/// misaligned `start`, a `port` outside `1..=7`, an unrepresentable range
/// or any already-mapped page in the range.
pub fn sys_mmap(k: &mut Kernel, start: usize, len: usize, port: usize) -> (r: isize)
    requires
        kernel_wf(*old(k)),
        old(k).running is Some,
    ensures
        kernel_wf(*final(k)),
        same_kernel_except_procs(*final(k), *old(k)),
        procs_eq_except(final(k).procs@, old(k).procs@, cur_of(*old(k)).0 as int),
        ({
            let m0 = cur_proc(*old(k)).mem;
            let p1 = final(k).procs@[cur_of(*old(k)).0 as int];
            &&& p1.tasks == cur_proc(*old(k)).tasks
            &&& r == 0 || r == -1
            &&& (r == 0) <==> mem::mmap_ok(m0.pages@, start as int, len as int, port as int)
            &&& r == 0 ==> p1.mem.pages@ == mem::with_range_added(
                m0.pages@,
                mem::first_vpn(start as int),
                (mem::end_vpn(start as int + len) - mem::first_vpn(start as int)) as nat,
                mem::spec_port_perm(port),
            )
            &&& r == -1 ==> p1.mem.pages@ == m0.pages@
            &&& p1.mem.brk == m0.brk && p1.mem.heap_bottom == m0.heap_bottom
        }),
{
    let (p, _t) = k.running.unwrap();
    let r = k.procs[p].mem.mmap(start, len, port);
    proof {
        let p0 = old(k).procs@[p as int];
        let p1 = k.procs@[p as int];
        lemma_proc_wf_new_mem(p0, p1);
    }
    r
}

/// Unmaps `[start, start + len)` in the calling process's address space;
/// fails with -1, changing nothing, on a misaligned argument, an
/// unrepresentable range or any unmapped page in the range.
pub fn sys_munmap(k: &mut Kernel, start: usize, len: usize) -> (r: isize)
    requires
        kernel_wf(*old(k)),
        old(k).running is Some,
    ensures
        kernel_wf(*final(k)),
        same_kernel_except_procs(*final(k), *old(k)),
        procs_eq_except(final(k).procs@, old(k).procs@, cur_of(*old(k)).0 as int),
        ({
            let m0 = cur_proc(*old(k)).mem;
            let p1 = final(k).procs@[cur_of(*old(k)).0 as int];
            &&& p1.tasks == cur_proc(*old(k)).tasks
            &&& r == 0 || r == -1
            &&& (r == 0) <==> mem::munmap_ok(m0.pages@, start as int, len as int)
            &&& r == 0 ==> p1.mem.pages@ == mem::with_range_removed(
                m0.pages@,
                mem::first_vpn(start as int),
                mem::first_vpn(start as int + len),
            )
            &&& r == -1 ==> p1.mem.pages@ == m0.pages@
            &&& p1.mem.brk == m0.brk && p1.mem.heap_bottom == m0.heap_bottom
        }),
{
    let (p, _t) = k.running.unwrap();
    let r = k.procs[p].mem.munmap(start, len);
    proof {
        let p0 = old(k).procs@[p as int];
        let p1 = k.procs@[p as int];
        lemma_proc_wf_new_mem(p0, p1);
    }
    r
}

/// Writes the current monotonic time, split into whole seconds and residual
/// microseconds, to the caller's out-parameter; the time-zone argument is
/// ignored.
pub fn sys_get_time(k: &Kernel, ts: &mut TimeVal, _tz: usize) -> (r: isize)
    ensures
        r == 0,
        final(ts).sec == k.now_us / 1_000_000,
        final(ts).usec == k.now_us % 1_000_000,
{
    ts.sec = k.now_us / 1_000_000;
    ts.usec = k.now_us % 1_000_000;
    0
}

/// Writes the calling thread's status, syscall histogram and accumulated
/// running time to the caller's out-parameter.
pub fn sys_task_info(k: &Kernel, ti: &mut TaskInfo) -> (r: isize)
    requires
        kernel_wf(*k),
        k.running is Some,
    ensures
        r == 0,
        final(ti).status == cur_thread(*k).status,
        final(ti).syscall_times@ == cur_thread(*k).syscall_times@,
        final(ti).time == cur_thread(*k).time_ms,
{
    let (p, t) = k.running.unwrap();
    ti.status = k.procs[p].tasks[t].status;
    let hist = k.procs[p].tasks[t].syscall_times.clone();
    proof {
        assert(hist@ =~= k.procs@[p as int].tasks@[t as int].syscall_times@);
    }
    ti.syscall_times = hist;
    ti.time = k.procs[p].tasks[t].time_ms;
    0
}

/// How parking the calling thread for a voluntary yield relates the kernel
/// before to the kernel after: the thread turns Ready, goes to the back of
/// the ready queue, and the core goes idle for the scheduler to fill.
pub open spec fn yield_park_rel(a: Kernel, b: Kernel) -> bool {
    &&& a.running is Some
    &&& ({
        let (p, t) = cur_of(a);
        &&& b.running is None
        &&& b.ready@ == a.ready@.push((p, t))
        &&& procs_eq_except(b.procs@, a.procs@, p as int)
        &&& same_proc_except_tasks(b.procs@[p as int], cur_proc(a))
        &&& b.procs@[p as int].tasks@ == cur_proc(a).tasks@.update(
            t as int,
            (Thread { status: TaskStatus::Ready, ..cur_thread(a) }),
        )
        &&& b.sleepers == a.sleepers
        &&& b.programs == a.programs
        &&& b.now_us == a.now_us
    })
}

/// Voluntarily yields the processor: the calling thread is re-enqueued at
/// the back of the ready queue and the scheduler dispatches the ready
/// thread with the least stride. Returns 0.
pub fn sys_yield(k: &mut Kernel) -> (r: isize)
    requires
        kernel_wf(*old(k)),
        old(k).running is Some,
    ensures
        kernel_wf(*final(k)),
        r == 0,
        exists|mid: Kernel| #[trigger] yield_park_rel(*old(k), mid) && sched_rel(mid, *final(k)),
{
    let (p, t) = k.running.unwrap();
    k.procs[p].tasks[t].status = TaskStatus::Ready;
    k.ready.push((p, t));
    k.running = None;
    proof {
        let p0 = old(k).procs@[p as int];
        let p1 = k.procs@[p as int];
        assert(p1.tasks@ =~= p0.tasks@.update(
            t as int,
            (Thread { status: TaskStatus::Ready, ..p0.tasks@[t as int] }),
        ));
        lemma_proc_wf_same_ledgers(p0, p1);
        assert(yield_park_rel(*old(k), *k));
        assert(kernel_wf(*k));
    }
    let ghost mid = *k;
    k.schedule_next();
    proof {
        assert(yield_park_rel(*old(k), mid) && sched_rel(mid, *k));
    }
    0
}

/// All fields of the two processes agree except possibly the children list.
pub open spec fn same_proc_except_children(a: Process, b: Process) -> bool {
    &&& a.pid == b.pid
    &&& a.parent == b.parent
    &&& a.zombie == b.zombie
    &&& a.exit_code == b.exit_code
    &&& a.reaped == b.reaped
    &&& a.mem == b.mem
    &&& a.tasks == b.tasks
    &&& a.mutexes == b.mutexes
    &&& a.mutex_status == b.mutex_status
    &&& a.sems == b.sems
    &&& a.sem_status == b.sem_status
    &&& a.condvars == b.condvars
    &&& a.deadlock_detect == b.deadlock_detect
}

/// All fields of the two processes agree except possibly the parent link.
pub open spec fn same_proc_except_parent(a: Process, b: Process) -> bool {
    &&& a.pid == b.pid
    &&& a.children == b.children
    &&& a.zombie == b.zombie
    &&& a.exit_code == b.exit_code
    &&& a.reaped == b.reaped
    &&& a.mem == b.mem
    &&& a.tasks == b.tasks
    &&& a.mutexes == b.mutexes
    &&& a.mutex_status == b.mutex_status
    &&& a.sems == b.sems
    &&& a.sem_status == b.sem_status
    &&& a.condvars == b.condvars
    &&& a.deadlock_detect == b.deadlock_detect
}

/// An exact copy of a count vector.
fn clone_counts(v: &Vec<i64>) -> (c: Vec<i64>)
    ensures
        c@ == v@,
{
    let c = v.clone();
    proof {
        assert(c@ =~= v@);
    }
    c
}

/// An exact copy of a histogram.
fn clone_histogram(v: &Vec<u32>) -> (c: Vec<u32>)
    ensures
        c@ == v@,
{
    let c = v.clone();
    proof {
        assert(c@ =~= v@);
    }
    c
}

/// The mutex table as a forked child inherits it: the same variants under
/// the same ids, with the wait queues emptied — queued thread ids name the
/// parent's threads, which do not exist in the child.
fn inherited_mutexes(src: &Vec<MutexState>) -> (c: Vec<MutexState>)
    ensures
        c@.len() == src@.len(),
        forall|i: int|
            0 <= i < src@.len() ==> (#[trigger] c@[i]).blocking == src@[i].blocking
                && c@[i].queue@.len() == 0,
{
    let n = src.len();
    let mut c: Vec<MutexState> = Vec::new();
    let mut i: usize = 0;
    while i < n
        invariant
            i <= n,
            n == src@.len(),
            c@.len() == i,
            forall|j: int|
                0 <= j < i ==> (#[trigger] c@[j]).blocking == src@[j].blocking && c@[
                    j
                ].queue@.len() == 0,
        decreases n - i,
    {
        c.push(MutexState { blocking: src[i].blocking, queue: Vec::new() });
        i = i + 1;
    }
    c
}

/// The semaphore table as a forked child inherits it, wait queues emptied.
fn inherited_sems(src: &Vec<SemState>) -> (c: Vec<SemState>)
    ensures
        c@.len() == src@.len(),
        forall|i: int| 0 <= i < src@.len() ==> (#[trigger] c@[i]).queue@.len() == 0,
{
    let n = src.len();
    let mut c: Vec<SemState> = Vec::new();
    let mut i: usize = 0;
    while i < n
        invariant
            i <= n,
            n == src@.len(),
            c@.len() == i,
            forall|j: int| 0 <= j < i ==> (#[trigger] c@[j]).queue@.len() == 0,
        decreases n - i,
    {
        c.push(SemState { queue: Vec::new() });
        i = i + 1;
    }
    c
}

/// The condition-variable table as a forked child inherits it, wait queues
/// emptied.
fn inherited_condvars(src: &Vec<CondvarState>) -> (c: Vec<CondvarState>)
    ensures
        c@.len() == src@.len(),
        forall|i: int| 0 <= i < src@.len() ==> (#[trigger] c@[i]).queue@.len() == 0,
{
    let n = src.len();
    let mut c: Vec<CondvarState> = Vec::new();
    let mut i: usize = 0;
    while i < n
        invariant
            i <= n,
            n == src@.len(),
            c@.len() == i,
            forall|j: int| 0 <= j < i ==> (#[trigger] c@[j]).queue@.len() == 0,
        decreases n - i,
    {
        c.push(CondvarState { queue: Vec::new() });
        i = i + 1;
    }
    c
}

/// The mutex availability vector as a forked child inherits it: a mutex
/// the forking thread holds stays held (its unit is in the child thread's
/// ledger); one held by any other parent thread has no holder among the
/// child's threads, so its unit returns to the pool.
fn inherited_mutex_status(own: &Vec<i64>) -> (s: Vec<i64>)
    ensures
        s@.len() == own@.len(),
        forall|i: int|
            0 <= i < own@.len() ==> #[trigger] s@[i] == (if own@[i] >= 1 {
                0i64
            } else {
                1i64
            }),
{
    let n = own.len();
    let mut s: Vec<i64> = Vec::new();
    let mut i: usize = 0;
    while i < n
        invariant
            i <= n,
            n == own@.len(),
            s@.len() == i,
            forall|j: int|
                0 <= j < i ==> #[trigger] s@[j] == (if own@[j] >= 1 {
                    0i64
                } else {
                    1i64
                }),
        decreases n - i,
    {
        if own[i] >= 1 {
            s.push(0);
        } else {
            s.push(1);
        }
        i = i + 1;
    }
    s
}

/// Clones the calling process into a fresh one with a single thread whose
/// return-value slot is forced to 0, so that the only observable
/// difference between parent and child at the fork point is the return
/// value: the child inherits a copy of the parent's memory, the resource
/// tables under the same ids (wait queues emptied — they name parent
/// thread ids), the detection flag, and the forking thread itself, ledgers
/// included. A mutex unit held by a parent thread other than the caller
/// has no holder among the child's threads and returns to the child's
/// pool; semaphore availability carries over unchanged, units accounted to
/// other parent threads staying with them in the parent alone. The child
/// becomes a child of the caller and is made runnable at once. Returns the
/// child's pid to the parent.
pub fn sys_fork(k: &mut Kernel) -> (r: isize)
    requires
        kernel_wf(*old(k)),
        old(k).running is Some,
        old(k).procs@.len() < crate::kernel::MAX_PROCS,
    ensures
        kernel_wf(*final(k)),
        ({
            let (p, t) = cur_of(*old(k));
            let newpid = old(k).procs@.len();
            let p0 = cur_proc(*old(k));
            let th0 = cur_thread(*old(k));
            let c = final(k).procs@[newpid as int];
            &&& r == newpid
            &&& final(k).procs@.len() == newpid + 1
            &&& forall|q: int| 0 <= q < newpid && q != p ==> final(k).procs@[q] == old(k).procs@[q]
            &&& same_proc_except_children(final(k).procs@[p as int], p0)
            &&& final(k).procs@[p as int].children@ == p0.children@.push(newpid as usize)
            &&& c.pid == newpid
            &&& c.parent == Some(p)
            &&& c.children@.len() == 0
            &&& !c.zombie && !c.reaped
            &&& c.mem.pages@ == p0.mem.pages@
            &&& c.mem.brk == p0.mem.brk
            &&& c.mem.heap_bottom == p0.mem.heap_bottom
            &&& c.mutexes@.len() == p0.mutexes@.len()
            &&& forall|i: int|
                0 <= i < p0.mutexes@.len() ==> (#[trigger] c.mutexes@[i]).blocking == p0.mutexes@[
                    i
                ].blocking && c.mutexes@[i].queue@.len() == 0
            &&& c.mutex_status@.len() == p0.mutexes@.len()
            &&& forall|i: int|
                0 <= i < p0.mutexes@.len() ==> #[trigger] c.mutex_status@[i] == (
                if th0.mutex_own@[i] >= 1 {
                    0i64
                } else {
                    1i64
                })
            &&& c.sems@.len() == p0.sems@.len()
            &&& forall|i: int| 0 <= i < p0.sems@.len() ==> (#[trigger] c.sems@[i]).queue@.len() == 0
            &&& c.sem_status@ == p0.sem_status@
            &&& c.condvars@.len() == p0.condvars@.len()
            &&& forall|i: int|
                0 <= i < p0.condvars@.len() ==> (#[trigger] c.condvars@[i]).queue@.len() == 0
            &&& c.deadlock_detect == p0.deadlock_detect
            &&& c.tasks@.len() == 1
            &&& ({
                let ct = c.tasks@[0];
                &&& ct.tid == 0
                &&& ct.status == TaskStatus::Ready
                &&& ct.ret_val == 0
                &&& ct.priority == th0.priority
                &&& ct.pass == th0.pass
                &&& ct.syscall_times@ == th0.syscall_times@
                &&& ct.time_ms == th0.time_ms
                &&& ct.mutex_own@ == th0.mutex_own@
                &&& ct.mutex_require@ == th0.mutex_require@
                &&& ct.sem_own@ == th0.sem_own@
                &&& ct.sem_require@ == th0.sem_require@
            })
            &&& final(k).ready@ == old(k).ready@.push(((newpid as usize), 0usize))
            &&& final(k).running == old(k).running
            &&& final(k).sleepers == old(k).sleepers
            &&& final(k).programs == old(k).programs
            &&& final(k).now_us == old(k).now_us
        }),
{
    let (p, t) = k.running.unwrap();
    let newpid = k.procs.len();
    proof {
        assert(proc_wf(k.procs@[p as int]));
        assert(thread_wf(
            cur_thread(*old(k)),
            cur_proc(*old(k)).mutexes@.len() as int,
            cur_proc(*old(k)).sems@.len() as int,
        ));
    }
    let mem = k.procs[p].mem.duplicate();
    let mutexes = inherited_mutexes(&k.procs[p].mutexes);
    let mutex_status = inherited_mutex_status(&k.procs[p].tasks[t].mutex_own);
    let sems = inherited_sems(&k.procs[p].sems);
    let sem_status = clone_counts(&k.procs[p].sem_status);
    let condvars = inherited_condvars(&k.procs[p].condvars);
    let deadlock_detect = k.procs[p].deadlock_detect;
    let child_thread = Thread {
        tid: 0,
        status: TaskStatus::Ready,
        ret_val: 0,
        priority: k.procs[p].tasks[t].priority,
        pass: k.procs[p].tasks[t].pass,
        syscall_times: clone_histogram(&k.procs[p].tasks[t].syscall_times),
        time_ms: k.procs[p].tasks[t].time_ms,
        mutex_own: clone_counts(&k.procs[p].tasks[t].mutex_own),
        mutex_require: clone_counts(&k.procs[p].tasks[t].mutex_require),
        sem_own: clone_counts(&k.procs[p].tasks[t].sem_own),
        sem_require: clone_counts(&k.procs[p].tasks[t].sem_require),
    };
    let mut tasks: Vec<Thread> = Vec::new();
    tasks.push(child_thread);
    let child = Process {
        pid: newpid,
        parent: Some(p),
        children: Vec::new(),
        zombie: false,
        exit_code: 0,
        reaped: false,
        mem,
        tasks,
        mutexes,
        mutex_status,
        sems,
        sem_status,
        condvars,
        deadlock_detect,
    };
    proof {
        let p0 = cur_proc(*old(k));
        let th0 = cur_thread(*old(k));
        let ct = child.tasks@[0];
        assert(thread_wf(ct, child.mutexes@.len() as int, child.sems@.len() as int));
        assert forall|i: int| 0 <= i < child.mutexes@.len() implies child.mutex_status@[i]
            + #[trigger] own_sum(child.tasks@, i) == 1 by {
            assert(child.tasks@.len() == 1);
            assert(child.tasks@.last() == ct);
            assert(child.tasks@.drop_last() =~= Seq::<Thread>::empty());
            assert(own_sum(Seq::<Thread>::empty(), i) == 0);
            assert(own_sum(child.tasks@, i) == own_entry(ct, i));
            assert forall|u: int| 0 <= u < p0.tasks@.len() implies own_entry(
                #[trigger] p0.tasks@[u],
                i,
            ) >= 0 by {
                assert(thread_wf(p0.tasks@[u], p0.mutexes@.len() as int, p0.sems@.len() as int));
            }
            lemma_own_entry_le_sum(p0.tasks@, t as int, i);
            assert(p0.mutex_status@[i] + own_sum(p0.tasks@, i) == 1);
            assert(0 <= th0.mutex_own@[i] <= 1);
        }
        assert(proc_wf(child));
    }
    k.procs.push(child);
    k.procs[p].children.push(newpid);
    k.ready.push((newpid, 0));
    proof {
        assert(entry_ok(k.procs@, (newpid, 0usize)));
        assert forall|i: int| 0 <= i < k.ready@.len() implies entry_ok(
            k.procs@,
            #[trigger] k.ready@[i],
        ) by {
            if i < old(k).ready@.len() {
                assert(entry_ok(old(k).procs@, old(k).ready@[i]));
            }
        }
    }
    newpid as isize
}

/// The loader can serve an executable of this name.
pub open spec fn program_exists(k: Kernel, path: Seq<u8>) -> bool {
    exists|i: int| 0 <= i < k.programs@.len() && k.programs@[i]@ == path
}

/// Byte-for-byte equality of two byte vectors.
pub fn bytes_eq(a: &Vec<u8>, b: &Vec<u8>) -> (r: bool)
    ensures
        r <==> a@ == b@,
{
    if a.len() != b.len() {
        proof {
            assert(a@ != b@);
        }
        return false;
    }
    let n = a.len();
    let mut i: usize = 0;
    while i < n
        invariant
            i <= n,
            n == a@.len() && n == b@.len(),
            forall|j: int| 0 <= j < i ==> a@[j] == b@[j],
        decreases n - i,
    {
        if a[i] != b[i] {
            proof {
                assert(a@[i as int] != b@[i as int]);
            }
            return false;
        }
        i = i + 1;
    }
    proof {
        assert(a@ =~= b@);
    }
    true
}

/// Whether the loader has an executable named `path`.
pub fn find_program(k: &Kernel, path: &Vec<u8>) -> (r: bool)
    ensures
        r == program_exists(*k, path@),
{
    let n = k.programs.len();
    let mut i: usize = 0;
    while i < n
        invariant
            i <= n,
            n == k.programs@.len(),
            forall|j: int| 0 <= j < i ==> k.programs@[j]@ != path@,
        decreases n - i,
    {
        if bytes_eq(&k.programs[i], path) {
            return true;
        }
        i = i + 1;
    }
    false
}

/// Replaces the calling process's image with the named executable: a fresh
/// address space, the thread count reset to one, fresh resource tables.
/// The tables are reset together with the threads: every other thread of
/// the old image dies here, so units and wait queues attributed to them
/// could no longer be accounted, and the new image has made no `*_create`
/// call yet. Fails with -1, changing nothing, when the loader has no such
/// executable.
pub fn sys_exec(k: &mut Kernel, path: &Vec<u8>) -> (r: isize)
    requires
        kernel_wf(*old(k)),
        old(k).running is Some,
    ensures
        kernel_wf(*final(k)),
        r == 0 || r == -1,
        (r == 0) <==> program_exists(*old(k), path@),
        r == -1 ==> *final(k) == *old(k),
        r == 0 ==> ({
            let (p, t) = cur_of(*old(k));
            let p1 = final(k).procs@[p as int];
            &&& procs_eq_except(final(k).procs@, old(k).procs@, p as int)
            &&& p1.pid == p
            &&& p1.parent == cur_proc(*old(k)).parent
            &&& p1.children == cur_proc(*old(k)).children
            &&& !p1.zombie && !p1.reaped
            &&& p1.exit_code == cur_proc(*old(k)).exit_code
            &&& p1.deadlock_detect == cur_proc(*old(k)).deadlock_detect
            &&& p1.mem.pages@.len() == 0 && p1.mem.brk == 0 && p1.mem.heap_bottom == 0
            &&& p1.tasks@.len() == 1
            &&& p1.tasks@[0].tid == 0
            &&& p1.tasks@[0].status == TaskStatus::Running
            &&& p1.tasks@[0].ret_val == 0
            &&& p1.mutexes@.len() == 0 && p1.mutex_status@.len() == 0
            &&& p1.sems@.len() == 0 && p1.sem_status@.len() == 0
            &&& p1.condvars@.len() == 0
            &&& final(k).running == Some((p, 0usize))
            &&& final(k).ready@ == crate::kernel::without_pid2(old(k).ready@, p)
            &&& final(k).sleepers@ == crate::kernel::without_pid3(old(k).sleepers@, p)
            &&& final(k).programs == old(k).programs
            &&& final(k).now_us == old(k).now_us
        }),
{
    if !find_program(k, path) {
        return -1;
    }
    let (p, _t) = k.running.unwrap();
    let mut th = Thread::new(0, 0, 0);
    th.status = TaskStatus::Running;
    let mut tasks: Vec<Thread> = Vec::new();
    tasks.push(th);
    k.procs[p].mem = mem::AddrSpace::new(0);
    k.procs[p].tasks = tasks;
    k.procs[p].mutexes = Vec::new();
    k.procs[p].mutex_status = Vec::new();
    k.procs[p].sems = Vec::new();
    k.procs[p].sem_status = Vec::new();
    k.procs[p].condvars = Vec::new();
    crate::kernel::purge_ready_of(&mut k.ready, p);
    crate::kernel::purge_sleepers_of(&mut k.sleepers, p);
    k.running = Some((p, 0));
    proof {
        crate::kernel::lemma_without_pid2_elems(old(k).ready@, p);
        crate::kernel::lemma_without_pid3_elems(old(k).sleepers@, p);
        assert forall|i: int| 0 <= i < k.ready@.len() implies entry_ok(
            k.procs@,
            #[trigger] k.ready@[i],
        ) by {
            assert(old(k).ready@.contains(k.ready@[i]));
            let w = choose|w: int| 0 <= w < old(k).ready@.len() && old(k).ready@[w] == k.ready@[i];
            assert(entry_ok(old(k).procs@, old(k).ready@[w]));
        }
        assert forall|i: int| 0 <= i < k.sleepers@.len() implies entry_ok(
            k.procs@,
            ((#[trigger] k.sleepers@[i]).1, k.sleepers@[i].2),
        ) by {
            assert(old(k).sleepers@.contains(k.sleepers@[i]));
            let w = choose|w: int|
                0 <= w < old(k).sleepers@.len() && old(k).sleepers@[w] == k.sleepers@[i];
            assert(entry_ok(old(k).procs@, (old(k).sleepers@[w].1, old(k).sleepers@[w].2)));
        }
    }
    0
}

/// Creates a fresh process running the named executable from scratch,
/// without inheriting the caller's memory; the new process becomes a child
/// of the caller and is made runnable. Returns the new pid, or -1 when the
/// loader has no such executable.
pub fn sys_spawn(k: &mut Kernel, path: &Vec<u8>) -> (r: isize)
    requires
        kernel_wf(*old(k)),
        old(k).running is Some,
        old(k).procs@.len() < crate::kernel::MAX_PROCS,
    ensures
        kernel_wf(*final(k)),
        r == -1 || r == old(k).procs@.len(),
        (r == -1) <==> !program_exists(*old(k), path@),
        r == -1 ==> *final(k) == *old(k),
        r != -1 ==> ({
            let (p, t) = cur_of(*old(k));
            let newpid = old(k).procs@.len();
            let c = final(k).procs@[newpid as int];
            &&& final(k).procs@.len() == newpid + 1
            &&& forall|q: int| 0 <= q < newpid && q != p ==> final(k).procs@[q] == old(k).procs@[q]
            &&& same_proc_except_children(final(k).procs@[p as int], cur_proc(*old(k)))
            &&& final(k).procs@[p as int].children@ == cur_proc(*old(k)).children@.push(
                newpid as usize,
            )
            &&& c.pid == newpid
            &&& c.parent == Some(p)
            &&& c.children@.len() == 0
            &&& !c.zombie && !c.reaped
            &&& c.mem.pages@.len() == 0 && c.mem.brk == 0 && c.mem.heap_bottom == 0
            &&& c.tasks@.len() == 1
            &&& c.tasks@[0].tid == 0
            &&& c.tasks@[0].status == TaskStatus::Ready
            &&& c.tasks@[0].ret_val == 0
            &&& c.mutexes@.len() == 0 && c.sems@.len() == 0 && c.condvars@.len() == 0
            &&& !c.deadlock_detect
            &&& final(k).ready@ == old(k).ready@.push(((newpid as usize), 0usize))
            &&& final(k).running == old(k).running
            &&& final(k).sleepers == old(k).sleepers
            &&& final(k).programs == old(k).programs
            &&& final(k).now_us == old(k).now_us
        }),
{
    if !find_program(k, path) {
        return -1;
    }
    let (p, _t) = k.running.unwrap();
    let newpid = k.procs.len();
    let child_thread = Thread::new(0, 0, 0);
    let mut tasks: Vec<Thread> = Vec::new();
    tasks.push(child_thread);
    let child = Process {
        pid: newpid,
        parent: Some(p),
        children: Vec::new(),
        zombie: false,
        exit_code: 0,
        reaped: false,
        mem: mem::AddrSpace::new(0),
        tasks,
        mutexes: Vec::new(),
        mutex_status: Vec::new(),
        sems: Vec::new(),
        sem_status: Vec::new(),
        condvars: Vec::new(),
        deadlock_detect: false,
    };
    k.procs.push(child);
    k.procs[p].children.push(newpid);
    k.ready.push((newpid, 0));
    proof {
        assert forall|i: int| 0 <= i < k.ready@.len() implies entry_ok(
            k.procs@,
            #[trigger] k.ready@[i],
        ) by {
            if i < old(k).ready@.len() {
                assert(entry_ok(old(k).procs@, old(k).ready@[i]));
            }
        }
    }
    newpid as isize
}

/// Creates one more thread in the calling process, with zeroed ledgers
/// sized to the process's resource tables, and makes it runnable. Returns
/// the new thread id.
pub fn sys_thread_create(k: &mut Kernel) -> (r: isize)
    requires
        kernel_wf(*old(k)),
        old(k).running is Some,
        cur_proc(*old(k)).tasks@.len() < crate::detect::MAX_TASKS,
    ensures
        kernel_wf(*final(k)),
        ({
            let (p, t) = cur_of(*old(k));
            let newtid = cur_proc(*old(k)).tasks@.len();
            let c = final(k).procs@[p as int].tasks@[newtid as int];
            &&& r == newtid
            &&& procs_eq_except(final(k).procs@, old(k).procs@, p as int)
            &&& same_proc_except_tasks(final(k).procs@[p as int], cur_proc(*old(k)))
            &&& final(k).procs@[p as int].tasks@ == cur_proc(*old(k)).tasks@.push(c)
            &&& c.tid == newtid
            &&& c.status == TaskStatus::Ready
            &&& c.ret_val == 0
            &&& c.priority == crate::task::DEFAULT_PRIORITY
            &&& forall|i: int|
                0 <= i < cur_proc(*old(k)).mutexes@.len() ==> c.mutex_own@[i] == 0
                    && c.mutex_require@[i] == 0
            &&& forall|i: int|
                0 <= i < cur_proc(*old(k)).sems@.len() ==> c.sem_own@[i] == 0
                    && c.sem_require@[i] == 0
            &&& final(k).ready@ == old(k).ready@.push((p, (newtid as usize)))
            &&& final(k).running == old(k).running
            &&& final(k).sleepers == old(k).sleepers
            &&& final(k).programs == old(k).programs
            &&& final(k).now_us == old(k).now_us
        }),
{
    let (p, _t) = k.running.unwrap();
    let newtid = k.procs[p].tasks.len();
    let n_mutex = k.procs[p].mutexes.len();
    let n_sem = k.procs[p].sems.len();
    let th = Thread::new(newtid, n_mutex, n_sem);
    k.procs[p].tasks.push(th);
    k.ready.push((p, newtid));
    proof {
        let p0 = old(k).procs@[p as int];
        let p1 = k.procs@[p as int];
        assert forall|t2: int| 0 <= t2 < p1.tasks@.len() implies thread_wf(
            #[trigger] p1.tasks@[t2],
            p1.mutexes@.len() as int,
            p1.sems@.len() as int,
        ) by {
            if t2 < p0.tasks@.len() {
                assert(thread_wf(p0.tasks@[t2], p0.mutexes@.len() as int, p0.sems@.len() as int));
            }
        }
        assert forall|i: int| 0 <= i < p1.mutexes@.len() implies p1.mutex_status@[i]
            + #[trigger] own_sum(p1.tasks@, i) == 1 by {
            lemma_own_sum_push(p0.tasks@, th, i);
            assert(own_entry(th, i) == 0);
            assert(p0.mutex_status@[i] + own_sum(p0.tasks@, i) == 1);
        }
        assert(proc_wf(p1));
        assert forall|i: int| 0 <= i < k.ready@.len() implies entry_ok(
            k.procs@,
            #[trigger] k.ready@[i],
        ) by {
            if i < old(k).ready@.len() {
                assert(entry_ok(old(k).procs@, old(k).ready@[i]));
            }
        }
    }
    newtid as isize
}


/// All fields of the two processes agree except possibly the reaped mark.
pub open spec fn same_proc_except_reaped(a: Process, b: Process) -> bool {
    &&& a.pid == b.pid
    &&& a.parent == b.parent
    &&& a.children == b.children
    &&& a.zombie == b.zombie
    &&& a.exit_code == b.exit_code
    &&& a.mem == b.mem
    &&& a.tasks == b.tasks
    &&& a.mutexes == b.mutexes
    &&& a.mutex_status == b.mutex_status
    &&& a.sems == b.sems
    &&& a.sem_status == b.sem_status
    &&& a.condvars == b.condvars
    &&& a.deadlock_detect == b.deadlock_detect
}

/// A process stays well formed when only its children list or reaped mark
/// changes.
pub proof fn lemma_proc_wf_reaped_or_children(p0: Process, p1: Process)
    requires
        proc_wf(p0),
        p1.mem == p0.mem,
        p1.tasks == p0.tasks,
        p1.zombie == p0.zombie,
        p1.mutexes == p0.mutexes,
        p1.mutex_status == p0.mutex_status,
        p1.sems == p0.sems,
        p1.sem_status == p0.sem_status,
        p1.condvars == p0.condvars,
    ensures
        proc_wf(p1),
{
}

/// Whether a child pid satisfies the `waitpid` filter: -1 matches any
/// child, a nonnegative pid only that child.
pub open spec fn pid_matches(child: usize, pid: isize) -> bool {
    pid == -1 || child as int == pid as int
}

/// Some child of the list satisfies the filter.
pub open spec fn has_matching_child(kids: Seq<usize>, pid: isize) -> bool {
    exists|j: int| 0 <= j < kids.len() && pid_matches(kids[j], pid)
}

/// Index of the first child that satisfies the filter and has exited, or
/// `None` when no such child exists, scanning from position `j`.
pub open spec fn first_zombie_match(
    procs: Seq<Process>,
    kids: Seq<usize>,
    pid: isize,
    j: nat,
) -> Option<int>
    decreases kids.len() - j,
{
    if j >= kids.len() {
        None
    } else if pid_matches(kids[j as int], pid) && (kids[j as int] as int) < procs.len() && procs[
        kids[j as int] as int
    ].zombie {
        Some(j as int)
    } else {
        first_zombie_match(procs, kids, pid, j + 1)
    }
}

/// Reaps one exited child. With no child matching the filter returns -1;
/// with matching children but none exited yet returns -2, both without
/// changing anything. Otherwise removes the first matching zombie child
/// from the children list, marks its slot dead, writes its exit code
/// through the out-parameter and returns its pid.
pub fn sys_waitpid(k: &mut Kernel, pid: isize, exit_code: &mut i32) -> (r: isize)
    requires
        kernel_wf(*old(k)),
        old(k).running is Some,
    ensures
        kernel_wf(*final(k)),
        ({
            let (p, t) = cur_of(*old(k));
            let kids = cur_proc(*old(k)).children@;
            let found = first_zombie_match(old(k).procs@, kids, pid, 0);
            &&& (r == -1) <==> !has_matching_child(kids, pid)
            &&& (r == -2) <==> (has_matching_child(kids, pid) && found is None)
            &&& (r == -1 || r == -2) ==> *final(k) == *old(k) && *final(exit_code) == *old(
                exit_code,
            )
            &&& (r != -1 && r != -2) ==> ({
                let j = found->Some_0;
                let c = kids[j] as int;
                &&& found is Some
                &&& r == kids[j]
                &&& *final(exit_code) == old(k).procs@[c].exit_code
                &&& final(k).procs@.len() == old(k).procs@.len()
                &&& forall|q: int|
                    0 <= q < old(k).procs@.len() && q != p && q != c ==> final(k).procs@[q] == old(
                        k,
                    ).procs@[q]
                &&& same_proc_except_children(final(k).procs@[p as int], cur_proc(*old(k)))
                &&& final(k).procs@[p as int].children@ == kids.remove(j)
                &&& same_proc_except_reaped(final(k).procs@[c], old(k).procs@[c])
                &&& final(k).procs@[c].reaped
                &&& final(k).running == old(k).running
                &&& final(k).ready == old(k).ready
                &&& final(k).sleepers == old(k).sleepers
                &&& final(k).programs == old(k).programs
                &&& final(k).now_us == old(k).now_us
            })
        }),
{
    let (p, _t) = k.running.unwrap();
    let n = k.procs[p].children.len();
    let mut any: bool = false;
    let mut i: usize = 0;
    while i < n
        invariant
            i <= n,
            kernel_wf(*k),
            *k == *old(k),
            k.running is Some,
            p == cur_of(*k).0,
            p < k.procs@.len(),
            n == k.procs@[p as int].children@.len(),
            any <==> exists|j: int|
                0 <= j < i && pid_matches(#[trigger] k.procs@[p as int].children@[j], pid),
        decreases n - i,
    {
        let c = k.procs[p].children[i];
        if pid == -1 || (pid >= 0 && c == pid as usize) {
            proof {
                assert(pid_matches(k.procs@[p as int].children@[i as int], pid));
            }
            any = true;
        }
        i = i + 1;
    }
    if !any {
        return -1;
    }
    let mut i: usize = 0;
    while i < n
        invariant
            i <= n,
            kernel_wf(*k),
            *k == *old(k),
            k.running is Some,
            p == cur_of(*k).0,
            p < k.procs@.len(),
            n == k.procs@[p as int].children@.len(),
            *exit_code == *old(exit_code),
            first_zombie_match(k.procs@, k.procs@[p as int].children@, pid, 0)
                == first_zombie_match(k.procs@, k.procs@[p as int].children@, pid, i as nat),
        decreases n - i,
    {
        let c = k.procs[p].children[i];
        let matches_filter = pid == -1 || (pid >= 0 && c == pid as usize);
        proof {
            assert(k.procs@[p as int].children@[i as int] < k.procs@.len());
        }
        if matches_filter && k.procs[c].zombie {
            proof {
                let kids = k.procs@[p as int].children@;
                assert(matches_filter == pid_matches(kids[i as int], pid));
                assert(first_zombie_match(k.procs@, kids, pid, i as nat) == Some(i as int));
                assert(has_matching_child(kids, pid));
            }
            let code = k.procs[c].exit_code;
            k.procs[c].reaped = true;
            let removed = k.procs[p].children.remove(i);
            *exit_code = code;
            proof {
                let p1 = k.procs@[p as int];
                lemma_proc_wf_reaped_or_children(old(k).procs@[p as int], p1);
                lemma_proc_wf_reaped_or_children(old(k).procs@[c as int], k.procs@[c as int]);
                assert forall|q: int, cc: int|
                    0 <= q < k.procs@.len() && 0 <= cc < k.procs@[q].children@.len() implies (
                #[trigger] k.procs@[q].children@[cc]) < k.procs@.len() by {
                    if q == p as int {
                        assert(k.procs@[q].children@[cc] == old(k).procs@[q].children@.remove(
                            i as int,
                        )[cc]);
                    }
                }
            }
            return removed as isize;
        }
        proof {
            let kids = k.procs@[p as int].children@;
            assert(matches_filter == pid_matches(kids[i as int], pid));
            if matches_filter {
                assert(!k.procs@[c as int].zombie);
            }
            assert(first_zombie_match(k.procs@, kids, pid, i as nat) == first_zombie_match(
                k.procs@,
                kids,
                pid,
                (i + 1) as nat,
            ));
        }
        i = i + 1;
    }
    proof {
        let kids = k.procs@[p as int].children@;
        assert(first_zombie_match(k.procs@, kids, pid, n as nat) is None);
    }
    -2
}


/// What the exiting process's control block looks like once its fields
/// are torn down.
pub open spec fn exited_proc_facts(p0: Process, z: Process, code: i32) -> bool {
    &&& z.pid == p0.pid
    &&& z.parent == p0.parent
    &&& z.children@.len() == 0
    &&& z.zombie
    &&& z.exit_code == code
    &&& z.reaped == p0.reaped
    &&& z.mem.pages@.len() == 0
    &&& z.mem.brk == p0.mem.brk
    &&& z.mem.heap_bottom == p0.mem.heap_bottom
    &&& z.tasks@.len() == 0
    &&& z.mutexes == p0.mutexes
    &&& z.mutex_status == p0.mutex_status
    &&& z.sems == p0.sems
    &&& z.sem_status == p0.sem_status
    &&& z.condvars == p0.condvars
    &&& z.deadlock_detect == p0.deadlock_detect
}

/// All fields of the two processes agree except possibly the parent link
/// and the children list.
pub open spec fn same_proc_core(a: Process, b: Process) -> bool {
    &&& a.pid == b.pid
    &&& a.zombie == b.zombie
    &&& a.exit_code == b.exit_code
    &&& a.reaped == b.reaped
    &&& a.mem == b.mem
    &&& a.tasks == b.tasks
    &&& a.mutexes == b.mutexes
    &&& a.mutex_status == b.mutex_status
    &&& a.sems == b.sems
    &&& a.sem_status == b.sem_status
    &&& a.condvars == b.condvars
    &&& a.deadlock_detect == b.deadlock_detect
}

/// A process stays well formed when only its parent link or children list
/// changes.
pub proof fn lemma_proc_wf_core(p0: Process, p1: Process)
    requires
        proc_wf(p0),
        same_proc_core(p1, p0),
    ensures
        proc_wf(p1),
{
}

/// How terminating the calling process relates the kernel before (`a`) to
/// the kernel after (`b`), before the scheduler runs: the process turns
/// zombie with the given exit code, its threads and address-space pages are
/// released, its children are handed to the init process, every ready or
/// sleeping thread of it disappears, and the core goes idle.
pub open spec fn exit_rel(a: Kernel, b: Kernel, code: i32) -> bool {
    &&& a.running is Some
    &&& ({
        let (p, t) = cur_of(a);
        let kids = cur_proc(a).children@;
        &&& b.running is None
        &&& b.ready@ == crate::kernel::without_pid2(a.ready@, p)
        &&& b.sleepers@ == crate::kernel::without_pid3(a.sleepers@, p)
        &&& b.programs == a.programs
        &&& b.now_us == a.now_us
        &&& b.procs@.len() == a.procs@.len()
        &&& ({
            let z = b.procs@[p as int];
            &&& z.pid == p
            &&& z.parent == cur_proc(a).parent
            &&& z.children@.len() == 0
            &&& z.zombie
            &&& z.exit_code == code
            &&& !z.reaped
            &&& z.mem.pages@.len() == 0
            &&& z.mem.brk == cur_proc(a).mem.brk
            &&& z.tasks@.len() == 0
            &&& z.mutexes == cur_proc(a).mutexes
            &&& z.sems == cur_proc(a).sems
            &&& z.condvars == cur_proc(a).condvars
            &&& z.deadlock_detect == cur_proc(a).deadlock_detect
        })
        &&& forall|q: int|
            0 <= q < a.procs@.len() && q != p ==> same_proc_core(
                #[trigger] b.procs@[q],
                a.procs@[q],
            )
        &&& forall|q: int|
            0 <= q < a.procs@.len() && q != p && q != 0 ==> (#[trigger] b.procs@[q]).children
                == a.procs@[q].children
        &&& (p != 0 ==> b.procs@[0].children@ == a.procs@[0].children@ + kids)
        &&& (p != 0 ==> forall|j: int|
            0 <= j < kids.len() && kids[j] != p ==> (#[trigger] b.procs@[kids[j] as int]).parent
                == Some(0usize))
        &&& (p == 0 ==> forall|q: int|
            0 <= q < a.procs@.len() && q != p ==> (#[trigger] b.procs@[q]).parent == a.procs@[
                q
            ].parent)
    })
}

/// Terminates the calling process: it turns zombie and records the exit
/// code, its threads and pages are released, its children are reparented
/// to the init process, and the scheduler dispatches some other thread.
/// The call never returns control to the exited context.
pub fn sys_exit(k: &mut Kernel, exit_code: i32)
    requires
        kernel_wf(*old(k)),
        old(k).running is Some,
    ensures
        kernel_wf(*final(k)),
        exists|mid: Kernel| #[trigger] exit_rel(*old(k), mid, exit_code) && sched_rel(
            mid,
            *final(k),
        ),
{
    let (p, _t) = k.running.unwrap();
    let kids = k.procs[p].children.clone();
    proof {
        assert(kids@ =~= old(k).procs@[p as int].children@);
        assert forall|j: int| 0 <= j < kids@.len() implies (#[trigger] kids@[j]) < k.procs@.len()
            by {
            assert(old(k).procs@[p as int].children@[j] < old(k).procs@.len());
        }
    }
    k.procs[p].children = Vec::new();
    k.procs[p].zombie = true;
    k.procs[p].exit_code = exit_code;
    k.procs[p].mem.pages = Vec::new();
    k.procs[p].tasks = Vec::new();
    if p != 0 {
        let m = kids.len();
        let mut i: usize = 0;
        while i < m
            invariant
                i <= m,
                m == kids@.len(),
                p != 0,
                p < k.procs@.len(),
                k.procs@.len() == old(k).procs@.len(),
                forall|j: int| 0 <= j < m ==> (#[trigger] kids@[j]) < k.procs@.len(),
                exited_proc_facts(old(k).procs@[p as int], k.procs@[p as int], exit_code),
                forall|q: int|
                    0 <= q < k.procs@.len() && q != p ==> same_proc_core(
                        #[trigger] k.procs@[q],
                        old(k).procs@[q],
                    ),
                forall|q: int|
                    0 <= q < k.procs@.len() && q != p && q != 0 ==> (#[trigger] k.procs@[
                        q
                    ]).children == old(k).procs@[q].children,
                k.procs@[0].children@ == old(k).procs@[0].children@ + kids@.take(i as int),
                forall|j: int|
                    0 <= j < i && kids@[j] != p ==> (#[trigger] k.procs@[kids@[j] as int]).parent
                        == Some(0usize),
                k.running == old(k).running,
                k.ready == old(k).ready,
                k.sleepers == old(k).sleepers,
                k.programs == old(k).programs,
                k.now_us == old(k).now_us,
            decreases m - i,
        {
            let c = kids[i];
            if c != p {
                k.procs[c].parent = Some(0);
            }
            k.procs[0].children.push(c);
            proof {
                assert(k.procs@[0].children@ =~= old(k).procs@[0].children@ + kids@.take(
                    i as int + 1,
                ));
            }
            i = i + 1;
        }
        proof {
            assert(kids@.take(m as int) =~= kids@);
        }
    }
    crate::kernel::purge_ready_of(&mut k.ready, p);
    crate::kernel::purge_sleepers_of(&mut k.sleepers, p);
    k.running = None;
    proof {
        crate::kernel::lemma_without_pid2_elems(old(k).ready@, p);
        crate::kernel::lemma_without_pid3_elems(old(k).sleepers@, p);
        assert forall|q: int| 0 <= q < k.procs@.len() implies proc_wf(#[trigger] k.procs@[q])
            && k.procs@[q].pid == q by {
            assert(proc_wf(old(k).procs@[q]));
            if q != p {
                lemma_proc_wf_core(old(k).procs@[q], k.procs@[q]);
            }
        }
        assert forall|q: int, cc: int|
            0 <= q < k.procs@.len() && 0 <= cc < k.procs@[q].children@.len() implies (
        #[trigger] k.procs@[q].children@[cc]) < k.procs@.len() by {
            if q == 0 && p != 0 {
                if cc < old(k).procs@[0].children@.len() {
                    assert(old(k).procs@[0].children@[cc] < old(k).procs@.len());
                } else {
                    assert(k.procs@[0].children@[cc] == kids@[cc - old(
                        k,
                    ).procs@[0].children@.len()]);
                }
            } else if q != p {
                assert(old(k).procs@[q].children@[cc] < old(k).procs@.len());
            }
        }
        assert forall|i2: int| 0 <= i2 < k.ready@.len() implies entry_ok(
            k.procs@,
            #[trigger] k.ready@[i2],
        ) by {
            assert(old(k).ready@.contains(k.ready@[i2]));
            let w = choose|w: int| 0 <= w < old(k).ready@.len() && old(k).ready@[w] == k.ready@[i2];
            assert(entry_ok(old(k).procs@, old(k).ready@[w]));
        }
        assert forall|i2: int| 0 <= i2 < k.sleepers@.len() implies entry_ok(
            k.procs@,
            ((#[trigger] k.sleepers@[i2]).1, k.sleepers@[i2].2),
        ) by {
            assert(old(k).sleepers@.contains(k.sleepers@[i2]));
            let w = choose|w: int|
                0 <= w < old(k).sleepers@.len() && old(k).sleepers@[w] == k.sleepers@[i2];
            assert(entry_ok(old(k).procs@, (old(k).sleepers@[w].1, old(k).sleepers@[w].2)));
        }
        assert(kernel_wf(*k));
        assert(exit_rel(*old(k), *k, exit_code));
    }
    let ghost mid = *k;
    k.schedule_next();
    proof {
        assert(exit_rel(*old(k), mid, exit_code) && sched_rel(mid, *k));
    }
}

/// Records one invocation of syscall number `num` in the calling thread's
/// histogram, as the trap dispatcher does on every entry; a count sticks
/// at the top of its range and an out-of-range number is ignored.
pub fn note_syscall(k: &mut Kernel, num: usize)
    requires
        kernel_wf(*old(k)),
        old(k).running is Some,
    ensures
        kernel_wf(*final(k)),
        same_kernel_except_procs(*final(k), *old(k)),
        procs_eq_except(final(k).procs@, old(k).procs@, cur_of(*old(k)).0 as int),
        ({
            let (p, t) = cur_of(*old(k));
            let th0 = cur_thread(*old(k));
            &&& same_proc_except_tasks(final(k).procs@[p as int], cur_proc(*old(k)))
            &&& (num >= th0.syscall_times@.len() ==> final(k).procs@[p as int].tasks
                == cur_proc(*old(k)).tasks)
            &&& (num < th0.syscall_times@.len() ==> ({
                let c0 = th0.syscall_times@[num as int];
                let c1 = if c0 < u32::MAX {
                    (c0 + 1) as u32
                } else {
                    c0
                };
                let tasks1 = final(k).procs@[p as int].tasks@;
                let a = tasks1[t as int];
                &&& tasks1.len() == cur_proc(*old(k)).tasks@.len()
                &&& forall|u: int|
                    0 <= u < tasks1.len() && u != t ==> #[trigger] tasks1[u] == cur_proc(
                        *old(k),
                    ).tasks@[u]
                &&& a.tid == th0.tid
                &&& a.status == th0.status
                &&& a.ret_val == th0.ret_val
                &&& a.priority == th0.priority
                &&& a.pass == th0.pass
                &&& a.time_ms == th0.time_ms
                &&& a.mutex_own == th0.mutex_own
                &&& a.mutex_require == th0.mutex_require
                &&& a.sem_own == th0.sem_own
                &&& a.sem_require == th0.sem_require
                &&& a.syscall_times@ == th0.syscall_times@.update(num as int, c1)
            }))
        }),
{
    let (p, t) = k.running.unwrap();
    if num >= k.procs[p].tasks[t].syscall_times.len() {
        return ;
    }
    let c = k.procs[p].tasks[t].syscall_times[num];
    let c2 = if c < u32::MAX {
        c + 1
    } else {
        c
    };
    k.procs[p].tasks[t].syscall_times.set(num, c2);
    proof {
        let p0 = old(k).procs@[p as int];
        let p1 = k.procs@[p as int];
        assert(same_ledgers(p1.tasks@, p0.tasks@));
        lemma_proc_wf_same_ledgers(p0, p1);
        crate::kernel::lemma_children_unchanged(old(k).procs@, k.procs@);
    }
}

} // verus!
