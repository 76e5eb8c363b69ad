//! Synchronization syscalls: sleep, mutexes, semaphores, condition
//! variables, and the deadlock-detection toggle.
//!
//! Resource ids are small integers per process; a new primitive takes the
//! next id and every thread's ledger grows in the same step, which keeps
//! the ledger rows exactly as long as the resource tables — the invariant
//! the deadlock detector indexes by.
use vstd::prelude::*;

use crate::detect::{bankers_safe, detect_pre, detect_safe, rows_view, LedgerRow, RowView, RES_BOUND};
use crate::kernel::{
    entry_ok, kernel_wf, lemma_own_sum_congruent, lemma_own_sum_update, lemma_own_sum_zero,
    lemma_own_entry_le_sum, own_entry, own_sum, proc_wf, procs_eq_except, queues_wf,
    same_proc_except_tasks, sched_rel, thread_wf, Kernel, MutexState, Process, SemState,
    CondvarState,
};
use crate::sysproc::{cur_of, cur_proc, cur_thread, same_kernel_except_procs};
use crate::task::{TaskStatus, Thread};

verus! {

/// The distinguished return value of a request that deadlock detection
/// refuses.
pub const DEADLOCK_RV: isize = -0xDEAD;

/// A ledger count one higher, held at the machine bound.
pub open spec fn spec_sat_inc(x: i64) -> i64 {
    if x < RES_BOUND {
        (x + 1) as i64
    } else {
        x
    }
}

/// A ledger count one lower, held at the machine bound.
pub open spec fn spec_sat_dec(x: i64) -> i64 {
    if x > -RES_BOUND {
        (x - 1) as i64
    } else {
        x
    }
}

/// A request count one lower, never below zero.
pub open spec fn spec_dec_floor(x: i64) -> i64 {
    if x >= 1 {
        (x - 1) as i64
    } else {
        0
    }
}

fn sat_inc(x: i64) -> (r: i64)
    ensures
        r == spec_sat_inc(x),
{
    if x < RES_BOUND {
        x + 1
    } else {
        x
    }
}

fn sat_dec(x: i64) -> (r: i64)
    ensures
        r == spec_sat_dec(x),
{
    if x > -RES_BOUND {
        x - 1
    } else {
        x
    }
}

fn dec_floor(x: i64) -> (r: i64)
    ensures
        r == spec_dec_floor(x),
{
    if x >= 1 {
        x - 1
    } else {
        0
    }
}

/// Every field of the two threads agrees except the four ledgers and the
/// life-cycle fields a wake may set.
pub open spec fn thread_frame(a: Thread, b: Thread) -> bool {
    &&& a.tid == b.tid
    &&& a.priority == b.priority
    &&& a.pass == b.pass
    &&& a.syscall_times == b.syscall_times
    &&& a.time_ms == b.time_ms
}

/// Switches deadlock detection for the calling process: 1 turns it on, 0
/// off, anything else is rejected with -1 and no change.
pub fn sys_enable_deadlock_detect(k: &mut Kernel, enabled: usize) -> (r: isize)
    requires
        kernel_wf(*old(k)),
        old(k).running is Some,
    ensures
        kernel_wf(*final(k)),
        (enabled == 0 || enabled == 1) <==> r == 0,
        r != 0 ==> r == -1 && *final(k) == *old(k),
        r == 0 ==> ({
            let p = cur_of(*old(k)).0 as int;
            &&& same_kernel_except_procs(*final(k), *old(k))
            &&& procs_eq_except(final(k).procs@, old(k).procs@, p)
            &&& final(k).procs@[p].deadlock_detect == (enabled == 1)
            &&& final(k).procs@[p].pid == cur_proc(*old(k)).pid
            &&& final(k).procs@[p].parent == cur_proc(*old(k)).parent
            &&& final(k).procs@[p].children == cur_proc(*old(k)).children
            &&& final(k).procs@[p].zombie == cur_proc(*old(k)).zombie
            &&& final(k).procs@[p].exit_code == cur_proc(*old(k)).exit_code
            &&& final(k).procs@[p].reaped == cur_proc(*old(k)).reaped
            &&& final(k).procs@[p].mem == cur_proc(*old(k)).mem
            &&& final(k).procs@[p].tasks == cur_proc(*old(k)).tasks
            &&& final(k).procs@[p].mutexes == cur_proc(*old(k)).mutexes
            &&& final(k).procs@[p].mutex_status == cur_proc(*old(k)).mutex_status
            &&& final(k).procs@[p].sems == cur_proc(*old(k)).sems
            &&& final(k).procs@[p].sem_status == cur_proc(*old(k)).sem_status
            &&& final(k).procs@[p].condvars == cur_proc(*old(k)).condvars
        }),
{
    if enabled > 1 {
        return -1;
    }
    let (p, _t) = k.running.unwrap();
    k.procs[p].deadlock_detect = enabled == 1;
    proof {
        assert(proc_wf(k.procs@[p as int]));
        crate::kernel::lemma_children_unchanged(old(k).procs@, k.procs@);
    }
    0
}

/// Creates a mutex of the requested variant under the lowest unused id —
/// ids are never freed here, so that is the next slot — with one available
/// unit, and grows every thread's mutex ledger by a zeroed entry in the
/// same step. Returns the new id.
pub fn sys_mutex_create(k: &mut Kernel, blocking: bool) -> (r: isize)
    requires
        kernel_wf(*old(k)),
        old(k).running is Some,
        cur_proc(*old(k)).mutexes@.len() < RES_BOUND as usize,
    ensures
        kernel_wf(*final(k)),
        ({
            let p = cur_of(*old(k)).0 as int;
            let p0 = cur_proc(*old(k));
            let p1 = final(k).procs@[p];
            let n = p0.mutexes@.len() as int;
            &&& r == n
            &&& same_kernel_except_procs(*final(k), *old(k))
            &&& procs_eq_except(final(k).procs@, old(k).procs@, p)
            &&& p1.mutexes@.len() == n + 1
            &&& forall|i: int| 0 <= i < n ==> #[trigger] p1.mutexes@[i] == p0.mutexes@[i]
            &&& p1.mutexes@[n].blocking == blocking
            &&& p1.mutexes@[n].queue@.len() == 0
            &&& p1.mutex_status@ == p0.mutex_status@.push(1i64)
            &&& p1.tasks@.len() == p0.tasks@.len()
            &&& forall|t: int|
                0 <= t < p0.tasks@.len() ==> ({
                    let a = #[trigger] p1.tasks@[t];
                    let b = p0.tasks@[t];
                    &&& thread_frame(a, b)
                    &&& a.status == b.status
                    &&& a.ret_val == b.ret_val
                    &&& a.mutex_own@ == b.mutex_own@.push(0i64)
                    &&& a.mutex_require@ == b.mutex_require@.push(0i64)
                    &&& a.sem_own == b.sem_own
                    &&& a.sem_require == b.sem_require
                })
            &&& p1.sems == p0.sems
            &&& p1.sem_status == p0.sem_status
            &&& p1.condvars == p0.condvars
            &&& p1.deadlock_detect == p0.deadlock_detect
            &&& p1.pid == p0.pid && p1.parent == p0.parent && p1.children == p0.children
            &&& p1.zombie == p0.zombie && p1.reaped == p0.reaped && p1.mem == p0.mem
        }),
{
    let (p, _t) = k.running.unwrap();
    let id = k.procs[p].mutexes.len();
    k.procs[p].mutexes.push(MutexState { blocking, queue: Vec::new() });
    k.procs[p].mutex_status.push(1);
    let n_tasks = k.procs[p].tasks.len();
    let ghost tasks0 = old(k).procs@[p as int].tasks@;
    let mut t: usize = 0;
    while t < n_tasks
        invariant
            t <= n_tasks,
            p < k.procs@.len(),
            n_tasks == k.procs@[p as int].tasks@.len(),
            n_tasks == tasks0.len(),
            forall|u: int|
                0 <= u < t ==> ({
                    let a = #[trigger] k.procs@[p as int].tasks@[u];
                    let b = tasks0[u];
                    &&& thread_frame(a, b)
                    &&& a.status == b.status
                    &&& a.ret_val == b.ret_val
                    &&& a.mutex_own@ == b.mutex_own@.push(0i64)
                    &&& a.mutex_require@ == b.mutex_require@.push(0i64)
                    &&& a.sem_own == b.sem_own
                    &&& a.sem_require == b.sem_require
                }),
            forall|u: int| t <= u < n_tasks ==> #[trigger] k.procs@[p as int].tasks@[u] == tasks0[u],
            procs_eq_except(k.procs@, old(k).procs@, p as int),
            k.procs@[p as int].mutexes@.len() == old(k).procs@[p as int].mutexes@.len() + 1,
            k.procs@[p as int].mutex_status@ == old(k).procs@[p as int].mutex_status@.push(1i64),
            k.procs@[p as int].sems == old(k).procs@[p as int].sems,
            k.procs@[p as int].sem_status == old(k).procs@[p as int].sem_status,
            k.procs@[p as int].condvars == old(k).procs@[p as int].condvars,
            k.procs@[p as int].pid == old(k).procs@[p as int].pid,
            k.procs@[p as int].parent == old(k).procs@[p as int].parent,
            k.procs@[p as int].children == old(k).procs@[p as int].children,
            k.procs@[p as int].zombie == old(k).procs@[p as int].zombie,
            k.procs@[p as int].reaped == old(k).procs@[p as int].reaped,
            k.procs@[p as int].mem == old(k).procs@[p as int].mem,
            k.procs@[p as int].deadlock_detect == old(k).procs@[p as int].deadlock_detect,
            k.procs@[p as int].mutexes@[old(k).procs@[p as int].mutexes@.len() as int].blocking
                == blocking,
            k.procs@[p as int].mutexes@[old(k).procs@[p as int].mutexes@.len() as int].queue@.len()
                == 0,
            forall|i: int|
                0 <= i < old(k).procs@[p as int].mutexes@.len() ==> #[trigger] k.procs@[
                    p as int
                ].mutexes@[i] == old(k).procs@[p as int].mutexes@[i],
            k.running == old(k).running,
            k.ready == old(k).ready,
            k.sleepers == old(k).sleepers,
            k.programs == old(k).programs,
            k.now_us == old(k).now_us,
        decreases n_tasks - t,
    {
        k.procs[p].tasks[t].mutex_own.push(0);
        k.procs[p].tasks[t].mutex_require.push(0);
        t = t + 1;
    }
    proof {
        let p0 = old(k).procs@[p as int];
        let p1 = k.procs@[p as int];
        let n = p0.mutexes@.len() as int;
        assert forall|u: int| 0 <= u < p1.tasks@.len() implies thread_wf(
            #[trigger] p1.tasks@[u],
            p1.mutexes@.len() as int,
            p1.sems@.len() as int,
        ) by {
            assert(thread_wf(p0.tasks@[u], n, p0.sems@.len() as int));
            assert forall|i: int| 0 <= i < n + 1 implies 0 <= #[trigger] p1.tasks@[u].mutex_own@[i]
                <= RES_BOUND by {
                if i < n {
                    assert(p0.tasks@[u].mutex_own@[i] >= 0);
                    assert(p0.tasks@[u].mutex_require@[i] >= 0);
                }
            }
            assert forall|i: int|
                0 <= i < n + 1 implies 0 <= #[trigger] p1.tasks@[u].mutex_require@[i]
                <= RES_BOUND by {
                if i < n {
                    assert(p0.tasks@[u].mutex_require@[i] >= 0);
                }
            }
        }
        if !p1.zombie {
            assert forall|i: int| 0 <= i < p1.mutexes@.len() implies p1.mutex_status@[i]
                + #[trigger] own_sum(p1.tasks@, i) == 1 by {
                assert forall|u: int| 0 <= u < p1.tasks@.len() implies own_entry(
                    #[trigger] p1.tasks@[u],
                    i,
                ) == (if i < n {
                    own_entry(p0.tasks@[u], i)
                } else {
                    0
                }) by {}
                if i < n {
                    lemma_own_sum_congruent(p1.tasks@, p0.tasks@, i);
                } else {
                    lemma_own_sum_zero(p1.tasks@, i);
                }
            }
            assert(queues_wf(p1));
        }
        assert(proc_wf(p1));
        crate::kernel::lemma_children_unchanged(old(k).procs@, k.procs@);
    }
    id as isize
}

/// Creates a counting semaphore with `res_count` available units under the
/// next id, growing every thread's semaphore ledger by a zeroed entry in
/// the same step. Returns the new id.
pub fn sys_semaphore_create(k: &mut Kernel, res_count: usize) -> (r: isize)
    requires
        kernel_wf(*old(k)),
        old(k).running is Some,
        cur_proc(*old(k)).sems@.len() < RES_BOUND as usize,
        res_count <= RES_BOUND as usize,
    ensures
        kernel_wf(*final(k)),
        ({
            let p = cur_of(*old(k)).0 as int;
            let p0 = cur_proc(*old(k));
            let p1 = final(k).procs@[p];
            let n = p0.sems@.len() as int;
            &&& r == n
            &&& same_kernel_except_procs(*final(k), *old(k))
            &&& procs_eq_except(final(k).procs@, old(k).procs@, p)
            &&& p1.sems@.len() == n + 1
            &&& forall|i: int| 0 <= i < n ==> #[trigger] p1.sems@[i] == p0.sems@[i]
            &&& p1.sems@[n].queue@.len() == 0
            &&& p1.sem_status@ == p0.sem_status@.push(res_count as i64)
            &&& p1.tasks@.len() == p0.tasks@.len()
            &&& forall|t: int|
                0 <= t < p0.tasks@.len() ==> ({
                    let a = #[trigger] p1.tasks@[t];
                    let b = p0.tasks@[t];
                    &&& thread_frame(a, b)
                    &&& a.status == b.status
                    &&& a.ret_val == b.ret_val
                    &&& a.sem_own@ == b.sem_own@.push(0i64)
                    &&& a.sem_require@ == b.sem_require@.push(0i64)
                    &&& a.mutex_own == b.mutex_own
                    &&& a.mutex_require == b.mutex_require
                })
            &&& p1.mutexes == p0.mutexes
            &&& p1.mutex_status == p0.mutex_status
            &&& p1.condvars == p0.condvars
            &&& p1.deadlock_detect == p0.deadlock_detect
            &&& p1.pid == p0.pid && p1.parent == p0.parent && p1.children == p0.children
            &&& p1.zombie == p0.zombie && p1.reaped == p0.reaped && p1.mem == p0.mem
        }),
{
    let (p, _t) = k.running.unwrap();
    let id = k.procs[p].sems.len();
    k.procs[p].sems.push(SemState { queue: Vec::new() });
    k.procs[p].sem_status.push(res_count as i64);
    let n_tasks = k.procs[p].tasks.len();
    let ghost tasks0 = old(k).procs@[p as int].tasks@;
    let mut t: usize = 0;
    while t < n_tasks
        invariant
            t <= n_tasks,
            p < k.procs@.len(),
            n_tasks == k.procs@[p as int].tasks@.len(),
            n_tasks == tasks0.len(),
            forall|u: int|
                0 <= u < t ==> ({
                    let a = #[trigger] k.procs@[p as int].tasks@[u];
                    let b = tasks0[u];
                    &&& thread_frame(a, b)
                    &&& a.status == b.status
                    &&& a.ret_val == b.ret_val
                    &&& a.sem_own@ == b.sem_own@.push(0i64)
                    &&& a.sem_require@ == b.sem_require@.push(0i64)
                    &&& a.mutex_own == b.mutex_own
                    &&& a.mutex_require == b.mutex_require
                }),
            forall|u: int| t <= u < n_tasks ==> #[trigger] k.procs@[p as int].tasks@[u] == tasks0[u],
            procs_eq_except(k.procs@, old(k).procs@, p as int),
            k.procs@[p as int].sems@.len() == old(k).procs@[p as int].sems@.len() + 1,
            k.procs@[p as int].sem_status@ == old(k).procs@[p as int].sem_status@.push(
                res_count as i64,
            ),
            k.procs@[p as int].mutexes == old(k).procs@[p as int].mutexes,
            k.procs@[p as int].mutex_status == old(k).procs@[p as int].mutex_status,
            k.procs@[p as int].condvars == old(k).procs@[p as int].condvars,
            k.procs@[p as int].pid == old(k).procs@[p as int].pid,
            k.procs@[p as int].parent == old(k).procs@[p as int].parent,
            k.procs@[p as int].children == old(k).procs@[p as int].children,
            k.procs@[p as int].zombie == old(k).procs@[p as int].zombie,
            k.procs@[p as int].reaped == old(k).procs@[p as int].reaped,
            k.procs@[p as int].mem == old(k).procs@[p as int].mem,
            k.procs@[p as int].deadlock_detect == old(k).procs@[p as int].deadlock_detect,
            k.procs@[p as int].sems@[old(k).procs@[p as int].sems@.len() as int].queue@.len() == 0,
            forall|i: int|
                0 <= i < old(k).procs@[p as int].sems@.len() ==> #[trigger] k.procs@[
                    p as int
                ].sems@[i] == old(k).procs@[p as int].sems@[i],
            k.running == old(k).running,
            k.ready == old(k).ready,
            k.sleepers == old(k).sleepers,
            k.programs == old(k).programs,
            k.now_us == old(k).now_us,
        decreases n_tasks - t,
    {
        k.procs[p].tasks[t].sem_own.push(0);
        k.procs[p].tasks[t].sem_require.push(0);
        t = t + 1;
    }
    proof {
        let p0 = old(k).procs@[p as int];
        let p1 = k.procs@[p as int];
        let n = p0.sems@.len() as int;
        assert forall|u: int| 0 <= u < p1.tasks@.len() implies thread_wf(
            #[trigger] p1.tasks@[u],
            p1.mutexes@.len() as int,
            p1.sems@.len() as int,
        ) by {
            assert(thread_wf(p0.tasks@[u], p0.mutexes@.len() as int, n));
            assert forall|i: int|
                0 <= i < n + 1 implies -RES_BOUND <= #[trigger] p1.tasks@[u].sem_own@[i]
                <= RES_BOUND by {
                if i < n {
                    assert(-RES_BOUND <= p0.tasks@[u].sem_own@[i] <= RES_BOUND);
                }
            }
            assert forall|i: int| 0 <= i < n + 1 implies 0 <= #[trigger] p1.tasks@[u].sem_require@[i]
                <= RES_BOUND by {
                if i < n {
                    assert(0 <= p0.tasks@[u].sem_require@[i] <= RES_BOUND);
                }
            }
        }
        if !p1.zombie {
            assert forall|i: int| 0 <= i < p1.mutexes@.len() implies p1.mutex_status@[i]
                + #[trigger] own_sum(p1.tasks@, i) == 1 by {
                assert forall|u: int| 0 <= u < p1.tasks@.len() implies own_entry(
                    #[trigger] p1.tasks@[u],
                    i,
                ) == own_entry(p0.tasks@[u], i) by {}
                lemma_own_sum_congruent(p1.tasks@, p0.tasks@, i);
            }
            assert(queues_wf(p1));
        }
        assert(proc_wf(p1));
        crate::kernel::lemma_children_unchanged(old(k).procs@, k.procs@);
    }
    id as isize
}

/// Creates a condition variable under the next id and returns that id.
pub fn sys_condvar_create(k: &mut Kernel) -> (r: isize)
    requires
        kernel_wf(*old(k)),
        old(k).running is Some,
        cur_proc(*old(k)).condvars@.len() < RES_BOUND as usize,
    ensures
        kernel_wf(*final(k)),
        ({
            let p = cur_of(*old(k)).0 as int;
            let p0 = cur_proc(*old(k));
            let p1 = final(k).procs@[p];
            let n = p0.condvars@.len() as int;
            &&& r == n
            &&& same_kernel_except_procs(*final(k), *old(k))
            &&& procs_eq_except(final(k).procs@, old(k).procs@, p)
            &&& p1.condvars@.len() == n + 1
            &&& forall|i: int| 0 <= i < n ==> #[trigger] p1.condvars@[i] == p0.condvars@[i]
            &&& p1.condvars@[n].queue@.len() == 0
            &&& p1.tasks == p0.tasks
            &&& p1.mutexes == p0.mutexes && p1.mutex_status == p0.mutex_status
            &&& p1.sems == p0.sems && p1.sem_status == p0.sem_status
            &&& p1.deadlock_detect == p0.deadlock_detect
            &&& p1.pid == p0.pid && p1.parent == p0.parent && p1.children == p0.children
            &&& p1.zombie == p0.zombie && p1.reaped == p0.reaped && p1.mem == p0.mem
        }),
{
    let (p, _t) = k.running.unwrap();
    let id = k.procs[p].condvars.len();
    k.procs[p].condvars.push(CondvarState { queue: Vec::new() });
    proof {
        let p0 = old(k).procs@[p as int];
        let p1 = k.procs@[p as int];
        assert forall|u: int| 0 <= u < p1.tasks@.len() implies thread_wf(
            #[trigger] p1.tasks@[u],
            p1.mutexes@.len() as int,
            p1.sems@.len() as int,
        ) by {
            assert(thread_wf(p0.tasks@[u], p0.mutexes@.len() as int, p0.sems@.len() as int));
        }
        if !p1.zombie {
            assert forall|i: int| 0 <= i < p1.mutexes@.len() implies p1.mutex_status@[i]
                + #[trigger] own_sum(p1.tasks@, i) == 1 by {
                lemma_own_sum_congruent(p1.tasks@, p0.tasks@, i);
            }
        }
        assert(proc_wf(p1));
        crate::kernel::lemma_children_unchanged(old(k).procs@, k.procs@);
    }
    id as isize
}

/// Every field of the two processes agrees except the task list and the
/// synchronization tables.
pub open spec fn proc_frame(a: Process, b: Process) -> bool {
    &&& a.pid == b.pid
    &&& a.parent == b.parent
    &&& a.children == b.children
    &&& a.zombie == b.zombie
    &&& a.exit_code == b.exit_code
    &&& a.reaped == b.reaped
    &&& a.mem == b.mem
    &&& a.deadlock_detect == b.deadlock_detect
}

/// Thread `a` is thread `b` with its mutex ledger cells replaced and its
/// life-cycle fields set as given.
pub open spec fn thread_mutex_cell(
    a: Thread,
    b: Thread,
    own2: Seq<i64>,
    req2: Seq<i64>,
    st: TaskStatus,
    rv: isize,
) -> bool {
    &&& thread_frame(a, b)
    &&& a.status == st
    &&& a.ret_val == rv
    &&& a.mutex_own@ == own2
    &&& a.mutex_require@ == req2
    &&& a.sem_own == b.sem_own
    &&& a.sem_require == b.sem_require
}

/// Thread `a` is thread `b` with its semaphore ledger cells replaced and
/// its life-cycle fields set as given.
pub open spec fn thread_sem_cell(
    a: Thread,
    b: Thread,
    own2: Seq<i64>,
    req2: Seq<i64>,
    st: TaskStatus,
    rv: isize,
) -> bool {
    &&& thread_frame(a, b)
    &&& a.status == st
    &&& a.ret_val == rv
    &&& a.sem_own@ == own2
    &&& a.sem_require@ == req2
    &&& a.mutex_own == b.mutex_own
    &&& a.mutex_require == b.mutex_require
}

/// The ledger rows the detector judges for a mutex request: every thread's
/// mutex ledger, with the requesting thread's request raised by one.
pub open spec fn mutex_spec_rows(tasks: Seq<Thread>, cur: int, id: int) -> Seq<RowView> {
    Seq::new(
        tasks.len(),
        |t: int|
            Some(
                (
                    if t == cur {
                        tasks[t].mutex_require@.update(
                            id,
                            spec_sat_inc(tasks[t].mutex_require@[id]),
                        )
                    } else {
                        tasks[t].mutex_require@
                    },
                    tasks[t].mutex_own@,
                ),
            ),
    )
}

/// The ledger rows the detector judges for a semaphore request.
pub open spec fn sem_spec_rows(tasks: Seq<Thread>, cur: int, id: int) -> Seq<RowView> {
    Seq::new(
        tasks.len(),
        |t: int|
            Some(
                (
                    if t == cur {
                        tasks[t].sem_require@.update(id, spec_sat_inc(tasks[t].sem_require@[id]))
                    } else {
                        tasks[t].sem_require@
                    },
                    tasks[t].sem_own@,
                ),
            ),
    )
}

fn build_mutex_rows(pr: &Process, cur: usize, id: usize) -> (rows: Vec<Option<LedgerRow>>)
    requires
        cur < pr.tasks@.len(),
        id < pr.mutexes@.len(),
        proc_wf(*pr),
    ensures
        rows_view(rows@) == mutex_spec_rows(pr.tasks@, cur as int, id as int),
{
    let n = pr.tasks.len();
    let ghost target = mutex_spec_rows(pr.tasks@, cur as int, id as int);
    let mut rows: Vec<Option<LedgerRow>> = Vec::new();
    let mut t: usize = 0;
    while t < n
        invariant
            t <= n,
            n == pr.tasks@.len(),
            cur < n,
            id < pr.mutexes@.len(),
            proc_wf(*pr),
            target == mutex_spec_rows(pr.tasks@, cur as int, id as int),
            rows@.len() == t,
            forall|j: int| 0 <= j < t ==> rows_view(rows@)[j] == target[j],
        decreases n - t,
    {
        proof {
            assert(thread_wf(pr.tasks@[t as int], pr.mutexes@.len() as int, pr.sems@.len() as int));
        }
        let mut req = pr.tasks[t].mutex_require.clone();
        proof {
            assert(req@ =~= pr.tasks@[t as int].mutex_require@);
        }
        if t == cur {
            let v = req[id];
            let v2 = sat_inc(v);
            req.set(id, v2);
        }
        let own = pr.tasks[t].mutex_own.clone();
        proof {
            assert(own@ =~= pr.tasks@[t as int].mutex_own@);
        }
        rows.push(Some(LedgerRow { require: req, own }));
        t = t + 1;
    }
    proof {
        assert(rows_view(rows@) =~= target);
    }
    rows
}

fn build_sem_rows(pr: &Process, cur: usize, id: usize) -> (rows: Vec<Option<LedgerRow>>)
    requires
        cur < pr.tasks@.len(),
        id < pr.sems@.len(),
        proc_wf(*pr),
    ensures
        rows_view(rows@) == sem_spec_rows(pr.tasks@, cur as int, id as int),
{
    let n = pr.tasks.len();
    let ghost target = sem_spec_rows(pr.tasks@, cur as int, id as int);
    let mut rows: Vec<Option<LedgerRow>> = Vec::new();
    let mut t: usize = 0;
    while t < n
        invariant
            t <= n,
            n == pr.tasks@.len(),
            cur < n,
            id < pr.sems@.len(),
            proc_wf(*pr),
            target == sem_spec_rows(pr.tasks@, cur as int, id as int),
            rows@.len() == t,
            forall|j: int| 0 <= j < t ==> rows_view(rows@)[j] == target[j],
        decreases n - t,
    {
        proof {
            assert(thread_wf(pr.tasks@[t as int], pr.mutexes@.len() as int, pr.sems@.len() as int));
        }
        let mut req = pr.tasks[t].sem_require.clone();
        proof {
            assert(req@ =~= pr.tasks@[t as int].sem_require@);
        }
        if t == cur {
            let v = req[id];
            let v2 = sat_inc(v);
            req.set(id, v2);
        }
        let own = pr.tasks[t].sem_own.clone();
        proof {
            assert(own@ =~= pr.tasks@[t as int].sem_own@);
        }
        rows.push(Some(LedgerRow { require: req, own }));
        t = t + 1;
    }
    proof {
        assert(rows_view(rows@) =~= target);
    }
    rows
}

/// Deadlock detection stands in the way of this mutex request: detection
/// is on, and with the request counted the detector finds no completion
/// order.
pub open spec fn mutex_lock_refused(k: Kernel, id: int) -> bool {
    &&& cur_proc(k).deadlock_detect
    &&& !bankers_safe(
        mutex_spec_rows(cur_proc(k).tasks@, cur_of(k).1 as int, id),
        cur_proc(k).mutex_status@,
    )
}

/// Deadlock detection stands in the way of this semaphore request.
pub open spec fn sem_down_refused(k: Kernel, id: int) -> bool {
    &&& cur_proc(k).deadlock_detect
    &&& !bankers_safe(
        sem_spec_rows(cur_proc(k).tasks@, cur_of(k).1 as int, id),
        cur_proc(k).sem_status@,
    )
}

/// How blocking on a held mutex relates the kernel before to the kernel
/// after, before the scheduler runs: the caller's request is counted, it
/// joins the mutex's wait queue, and the core goes idle. Both variants
/// park on the queue and resume only when an unlock hands the unit over;
/// they differ only in the status the parked thread keeps — Blocked under
/// the suspending variant, Ready under the spinning one, whose busy-wait
/// this model folds into its yield points rather than re-enqueuing it to
/// spin.
pub open spec fn mutex_block_rel(a: Kernel, b: Kernel, id: int) -> bool {
    &&& a.running is Some
    &&& ({
        let (p, t) = cur_of(a);
        let p0 = cur_proc(a);
        let th0 = cur_thread(a);
        &&& b.running is None
        &&& b.ready == a.ready
        &&& b.sleepers == a.sleepers
        &&& b.programs == a.programs
        &&& b.now_us == a.now_us
        &&& procs_eq_except(b.procs@, a.procs@, p as int)
        &&& ({
            let p1 = b.procs@[p as int];
            &&& proc_frame(p1, p0)
            &&& p1.mutex_status == p0.mutex_status
            &&& p1.sems == p0.sems
            &&& p1.sem_status == p0.sem_status
            &&& p1.condvars == p0.condvars
            &&& p1.mutexes@.len() == p0.mutexes@.len()
            &&& forall|i: int|
                0 <= i < p0.mutexes@.len() && i != id ==> #[trigger] p1.mutexes@[i]
                    == p0.mutexes@[i]
            &&& p1.mutexes@[id].blocking == p0.mutexes@[id].blocking
            &&& p1.mutexes@[id].queue@ == p0.mutexes@[id].queue@.push(t)
            &&& p1.tasks@.len() == p0.tasks@.len()
            &&& forall|u: int|
                0 <= u < p0.tasks@.len() && u != t ==> #[trigger] p1.tasks@[u] == p0.tasks@[u]
            &&& thread_mutex_cell(
                p1.tasks@[t as int],
                th0,
                th0.mutex_own@,
                th0.mutex_require@.update(id, spec_sat_inc(th0.mutex_require@[id])),
                if p0.mutexes@[id].blocking {
                    TaskStatus::Blocked
                } else {
                    TaskStatus::Ready
                },
                th0.ret_val,
            )
        })
    })
}

/// Acquires the mutex for the calling thread, or refuses. An id outside
/// the process's table returns -1; with deadlock detection on, a request
/// the detector finds unsafe returns the deadlock sentinel and changes
/// nothing. A free mutex is taken at once: its unit moves into the
/// caller's ledger and the call returns 0. A held one blocks the caller on
/// the mutex's queue until an unlock hands the unit over; the woken
/// caller's syscall also ends in 0.
pub fn sys_mutex_lock(k: &mut Kernel, mutex_id: usize) -> (r: isize)
    requires
        kernel_wf(*old(k)),
        old(k).running is Some,
    ensures
        kernel_wf(*final(k)),
        mutex_id >= cur_proc(*old(k)).mutexes@.len() ==> r == -1 && *final(k) == *old(k),
        mutex_id < cur_proc(*old(k)).mutexes@.len() ==> ({
            let (p, t) = cur_of(*old(k));
            let p0 = cur_proc(*old(k));
            let th0 = cur_thread(*old(k));
            let id = mutex_id as int;
            &&& (mutex_lock_refused(*old(k), id) ==> r == DEADLOCK_RV && *final(k) == *old(k))
            &&& (!mutex_lock_refused(*old(k), id) && p0.mutex_status@[id] == 1 ==> ({
                let p1 = final(k).procs@[p as int];
                &&& r == 0
                &&& same_kernel_except_procs(*final(k), *old(k))
                &&& procs_eq_except(final(k).procs@, old(k).procs@, p as int)
                &&& proc_frame(p1, p0)
                &&& p1.mutexes == p0.mutexes
                &&& p1.sems == p0.sems && p1.sem_status == p0.sem_status
                &&& p1.condvars == p0.condvars
                &&& p1.mutex_status@ == p0.mutex_status@.update(id, 0i64)
                &&& p1.tasks@.len() == p0.tasks@.len()
                &&& forall|u: int|
                    0 <= u < p0.tasks@.len() && u != t ==> #[trigger] p1.tasks@[u] == p0.tasks@[u]
                &&& thread_mutex_cell(
                    p1.tasks@[t as int],
                    th0,
                    th0.mutex_own@.update(id, (th0.mutex_own@[id] + 1) as i64),
                    th0.mutex_require@,
                    th0.status,
                    th0.ret_val,
                )
            }))
            &&& (!mutex_lock_refused(*old(k), id) && p0.mutex_status@[id] != 1 ==> ({
                &&& r == 0
                &&& exists|mid: Kernel| #[trigger] mutex_block_rel(*old(k), mid, id) && sched_rel(
                    mid,
                    *final(k),
                )
            }))
        }),
{
    let (p, t) = k.running.unwrap();
    if mutex_id >= k.procs[p].mutexes.len() {
        return -1;
    }
    proof {
        assert(proc_wf(k.procs@[p as int]));
        assert(thread_wf(
            cur_thread(*old(k)),
            cur_proc(*old(k)).mutexes@.len() as int,
            cur_proc(*old(k)).sems@.len() as int,
        ));
    }
    if k.procs[p].deadlock_detect {
        let rows = build_mutex_rows(&k.procs[p], t, mutex_id);
        proof {
            let p0 = cur_proc(*old(k));
            let rv = rows_view(rows@);
            assert forall|i: int| 0 <= i < rv.len() && rv[i] is Some implies rv[i]->Some_0.0.len()
                == p0.mutex_status@.len() && rv[i]->Some_0.1.len() == p0.mutex_status@.len() by {
                assert(thread_wf(p0.tasks@[i], p0.mutexes@.len() as int, p0.sems@.len() as int));
            }
            assert forall|i: int, j: int|
                0 <= i < rv.len() && rv[i] is Some && 0 <= j < p0.mutex_status@.len()
                implies -RES_BOUND <= #[trigger] rv[i]->Some_0.1[j] <= RES_BOUND by {
                assert(thread_wf(p0.tasks@[i], p0.mutexes@.len() as int, p0.sems@.len() as int));
            }
            assert(detect_pre(rv, p0.mutex_status@));
        }
        let safe = detect_safe(&rows, &k.procs[p].mutex_status);
        if !safe {
            return DEADLOCK_RV;
        }
    }
    if k.procs[p].mutex_status[mutex_id] == 1 {
        let v = k.procs[p].tasks[t].mutex_own[mutex_id];
        proof {
            let p0 = cur_proc(*old(k));
            assert forall|u: int| 0 <= u < p0.tasks@.len() implies own_entry(
                #[trigger] p0.tasks@[u],
                mutex_id as int,
            ) >= 0 by {
                assert(thread_wf(p0.tasks@[u], p0.mutexes@.len() as int, p0.sems@.len() as int));
            }
            lemma_own_entry_le_sum(p0.tasks@, t as int, mutex_id as int);
            assert(v == 0);
        }
        k.procs[p].mutex_status.set(mutex_id, 0);
        k.procs[p].tasks[t].mutex_own.set(mutex_id, v + 1);
        proof {
            let p0 = cur_proc(*old(k));
            let p1 = k.procs@[p as int];
            assert forall|u: int| 0 <= u < p1.tasks@.len() implies thread_wf(
                #[trigger] p1.tasks@[u],
                p1.mutexes@.len() as int,
                p1.sems@.len() as int,
            ) by {
                assert(thread_wf(p0.tasks@[u], p0.mutexes@.len() as int, p0.sems@.len() as int));
            }
            assert forall|i: int| 0 <= i < p1.mutexes@.len() implies p1.mutex_status@[i]
                + #[trigger] own_sum(p1.tasks@, i) == 1 by {
                lemma_own_sum_update(
                    p0.tasks@,
                    t as int,
                    p1.tasks@[t as int],
                    i,
                );
            }
            assert(queues_wf(p1));
            assert(proc_wf(p1));
            crate::kernel::lemma_children_unchanged(old(k).procs@, k.procs@);
        }
        return 0;
    }
    let vreq = k.procs[p].tasks[t].mutex_require[mutex_id];
    let vreq2 = sat_inc(vreq);
    k.procs[p].tasks[t].mutex_require.set(mutex_id, vreq2);
    let blocking = k.procs[p].mutexes[mutex_id].blocking;
    if blocking {
        k.procs[p].tasks[t].status = TaskStatus::Blocked;
    } else {
        k.procs[p].tasks[t].status = TaskStatus::Ready;
    }
    k.procs[p].mutexes[mutex_id].queue.push(t);
    k.running = None;
    proof {
        let p0 = cur_proc(*old(k));
        let p1 = k.procs@[p as int];
        assert forall|u: int| 0 <= u < p1.tasks@.len() implies thread_wf(
            #[trigger] p1.tasks@[u],
            p1.mutexes@.len() as int,
            p1.sems@.len() as int,
        ) by {
            assert(thread_wf(p0.tasks@[u], p0.mutexes@.len() as int, p0.sems@.len() as int));
        }
        assert forall|i: int| 0 <= i < p1.mutexes@.len() implies p1.mutex_status@[i]
            + #[trigger] own_sum(p1.tasks@, i) == 1 by {
            assert forall|u: int| 0 <= u < p1.tasks@.len() implies own_entry(
                #[trigger] p1.tasks@[u],
                i,
            ) == own_entry(p0.tasks@[u], i) by {}
            lemma_own_sum_congruent(p1.tasks@, p0.tasks@, i);
        }
        assert forall|i: int, q: int|
            0 <= i < p1.mutexes@.len() && 0 <= q < p1.mutexes@[i].queue@.len() implies (
        #[trigger] p1.mutexes@[i].queue@[q]) < p1.tasks@.len() by {
            if i == mutex_id as int && q == p1.mutexes@[i].queue@.len() - 1 {
            } else {
                assert(p0.mutexes@[i].queue@[q] < p0.tasks@.len());
            }
        }
        assert(queues_wf(p1));
        assert(proc_wf(p1));
        crate::kernel::lemma_children_unchanged(old(k).procs@, k.procs@);
        assert(kernel_wf(*k));
        assert(mutex_block_rel(*old(k), *k, mutex_id as int));
    }
    let ghost mid = *k;
    k.schedule_next();
    proof {
        assert(mutex_block_rel(*old(k), mid, mutex_id as int) && sched_rel(mid, *k));
    }
    0
}

/// Releases a mutex the calling thread holds. With waiters, the unit
/// passes straight to the first of them: its ledger takes the unit, its
/// pending request is cleared, and it is woken with result 0. With no
/// waiter the unit returns to the process's available vector.
pub fn sys_mutex_unlock(k: &mut Kernel, mutex_id: usize) -> (r: isize)
    requires
        kernel_wf(*old(k)),
        old(k).running is Some,
        mutex_id < cur_proc(*old(k)).mutexes@.len() ==> cur_thread(*old(k)).mutex_own@[
            mutex_id as int
        ] >= 1,
    ensures
        kernel_wf(*final(k)),
        mutex_id >= cur_proc(*old(k)).mutexes@.len() ==> r == -1 && *final(k) == *old(k),
        mutex_id < cur_proc(*old(k)).mutexes@.len() ==> ({
            let (p, t) = cur_of(*old(k));
            let p0 = cur_proc(*old(k));
            let th0 = cur_thread(*old(k));
            let id = mutex_id as int;
            let queue0 = p0.mutexes@[id].queue@;
            let p1 = final(k).procs@[p as int];
            &&& r == 0
            &&& final(k).running == old(k).running
            &&& final(k).sleepers == old(k).sleepers
            &&& final(k).programs == old(k).programs
            &&& final(k).now_us == old(k).now_us
            &&& procs_eq_except(final(k).procs@, old(k).procs@, p as int)
            &&& proc_frame(p1, p0)
            &&& p1.sems == p0.sems && p1.sem_status == p0.sem_status
            &&& p1.condvars == p0.condvars
            &&& p1.tasks@.len() == p0.tasks@.len()
            &&& (queue0.len() == 0 ==> ({
                &&& final(k).ready == old(k).ready
                &&& p1.mutexes == p0.mutexes
                &&& p1.mutex_status@ == p0.mutex_status@.update(id, 1i64)
                &&& forall|u: int|
                    0 <= u < p0.tasks@.len() && u != t ==> #[trigger] p1.tasks@[u] == p0.tasks@[u]
                &&& thread_mutex_cell(
                    p1.tasks@[t as int],
                    th0,
                    th0.mutex_own@.update(id, (th0.mutex_own@[id] - 1) as i64),
                    th0.mutex_require@,
                    th0.status,
                    th0.ret_val,
                )
            }))
            &&& (queue0.len() > 0 ==> ({
                let h = queue0[0];
                &&& p1.mutex_status == p0.mutex_status
                &&& p1.mutexes@.len() == p0.mutexes@.len()
                &&& forall|i: int|
                    0 <= i < p0.mutexes@.len() && i != id ==> #[trigger] p1.mutexes@[i]
                        == p0.mutexes@[i]
                &&& p1.mutexes@[id].blocking == p0.mutexes@[id].blocking
                &&& p1.mutexes@[id].queue@ == queue0.remove(0)
                &&& final(k).ready@ == old(k).ready@.push((p, h))
                &&& (h != t ==> ({
                    &&& forall|u: int|
                        0 <= u < p0.tasks@.len() && u != t && u != h ==> #[trigger] p1.tasks@[u]
                            == p0.tasks@[u]
                    &&& thread_mutex_cell(
                        p1.tasks@[t as int],
                        th0,
                        th0.mutex_own@.update(id, (th0.mutex_own@[id] - 1) as i64),
                        th0.mutex_require@,
                        th0.status,
                        th0.ret_val,
                    )
                    &&& ({
                        let hb = p0.tasks@[h as int];
                        thread_mutex_cell(
                            p1.tasks@[h as int],
                            hb,
                            hb.mutex_own@.update(id, (hb.mutex_own@[id] + 1) as i64),
                            hb.mutex_require@.update(id, spec_dec_floor(hb.mutex_require@[id])),
                            TaskStatus::Ready,
                            0,
                        )
                    })
                }))
                &&& (h == t ==> ({
                    &&& forall|u: int|
                        0 <= u < p0.tasks@.len() && u != t ==> #[trigger] p1.tasks@[u]
                            == p0.tasks@[u]
                    &&& thread_mutex_cell(
                        p1.tasks@[t as int],
                        th0,
                        th0.mutex_own@.update(id, th0.mutex_own@[id]),
                        th0.mutex_require@.update(id, spec_dec_floor(th0.mutex_require@[id])),
                        TaskStatus::Ready,
                        0,
                    )
                }))
            }))
        }),
{
    let (p, t) = k.running.unwrap();
    if mutex_id >= k.procs[p].mutexes.len() {
        return -1;
    }
    proof {
        assert(proc_wf(k.procs@[p as int]));
        assert(thread_wf(
            cur_thread(*old(k)),
            cur_proc(*old(k)).mutexes@.len() as int,
            cur_proc(*old(k)).sems@.len() as int,
        ));
    }
    let v = k.procs[p].tasks[t].mutex_own[mutex_id];
    k.procs[p].tasks[t].mutex_own.set(mutex_id, v - 1);
    if k.procs[p].mutexes[mutex_id].queue.len() == 0 {
        k.procs[p].mutex_status.set(mutex_id, 1);
        proof {
            let p0 = cur_proc(*old(k));
            let p1 = k.procs@[p as int];
            assert forall|u: int| 0 <= u < p1.tasks@.len() implies thread_wf(
                #[trigger] p1.tasks@[u],
                p1.mutexes@.len() as int,
                p1.sems@.len() as int,
            ) by {
                assert(thread_wf(p0.tasks@[u], p0.mutexes@.len() as int, p0.sems@.len() as int));
            }
            assert forall|u: int| 0 <= u < p0.tasks@.len() implies own_entry(
                #[trigger] p0.tasks@[u],
                mutex_id as int,
            ) >= 0 by {
                assert(thread_wf(p0.tasks@[u], p0.mutexes@.len() as int, p0.sems@.len() as int));
            }
            lemma_own_entry_le_sum(p0.tasks@, t as int, mutex_id as int);
            assert(p0.mutex_status@[mutex_id as int] == 0);
            assert forall|i: int| 0 <= i < p1.mutexes@.len() implies p1.mutex_status@[i]
                + #[trigger] own_sum(p1.tasks@, i) == 1 by {
                lemma_own_sum_update(p0.tasks@, t as int, p1.tasks@[t as int], i);
            }
            assert(queues_wf(p1));
            assert(proc_wf(p1));
            crate::kernel::lemma_children_unchanged(old(k).procs@, k.procs@);
        }
        return 0;
    }
    let h = k.procs[p].mutexes[mutex_id].queue.remove(0);
    proof {
        assert(cur_proc(*old(k)).mutexes@[mutex_id as int].queue@[0]
            < cur_proc(*old(k)).tasks@.len());
    }
    let hv = k.procs[p].tasks[h].mutex_own[mutex_id];
    proof {
        let p0 = cur_proc(*old(k));
        let pm = k.procs@[p as int];
        assert forall|u: int| 0 <= u < p0.tasks@.len() implies own_entry(
            #[trigger] p0.tasks@[u],
            mutex_id as int,
        ) >= 0 by {
            assert(thread_wf(p0.tasks@[u], p0.mutexes@.len() as int, p0.sems@.len() as int));
        }
        lemma_own_entry_le_sum(p0.tasks@, t as int, mutex_id as int);
        assert(p0.mutex_status@[mutex_id as int] == 0);
        // after the release the held-unit sum over the whole process is 0
        lemma_own_sum_update(p0.tasks@, t as int, pm.tasks@[t as int], mutex_id as int);
        assert(own_sum(pm.tasks@, mutex_id as int) == 0);
        assert forall|u: int| 0 <= u < pm.tasks@.len() implies own_entry(
            #[trigger] pm.tasks@[u],
            mutex_id as int,
        ) >= 0 by {
            assert(thread_wf(p0.tasks@[u], p0.mutexes@.len() as int, p0.sems@.len() as int));
        }
        lemma_own_entry_le_sum(pm.tasks@, h as int, mutex_id as int);
        assert(hv == 0);
    }
    let hreq = k.procs[p].tasks[h].mutex_require[mutex_id];
    let hreq2 = dec_floor(hreq);
    k.procs[p].tasks[h].mutex_own.set(mutex_id, hv + 1);
    k.procs[p].tasks[h].mutex_require.set(mutex_id, hreq2);
    k.procs[p].tasks[h].status = TaskStatus::Ready;
    k.procs[p].tasks[h].ret_val = 0;
    k.ready.push((p, h));
    proof {
        let p0 = cur_proc(*old(k));
        let p1 = k.procs@[p as int];
        let ghost mid_tasks = p0.tasks@.update(
            t as int,
            p0.tasks@[t as int],
        );
        assert forall|u: int| 0 <= u < p1.tasks@.len() implies thread_wf(
            #[trigger] p1.tasks@[u],
            p1.mutexes@.len() as int,
            p1.sems@.len() as int,
        ) by {
            assert(thread_wf(p0.tasks@[u], p0.mutexes@.len() as int, p0.sems@.len() as int));
            if u == h as int {
                assert(0 <= hreq2 <= RES_BOUND);
            }
        }
        assert forall|i: int| 0 <= i < p1.mutexes@.len() implies p1.mutex_status@[i]
            + #[trigger] own_sum(p1.tasks@, i) == 1 by {
            let tasks_a = p0.tasks@;
            let tasks_b = tasks_a.update(t as int, k.procs@[p as int].tasks@[t as int]);
            assert(tasks_b == tasks_a.update(
                t as int,
                tasks_b[t as int],
            ));
            lemma_own_sum_update(tasks_a, t as int, tasks_b[t as int], i);
            if h != t {
                assert(p1.tasks@ =~= tasks_b.update(h as int, p1.tasks@[h as int]));
                lemma_own_sum_update(tasks_b, h as int, p1.tasks@[h as int], i);
            } else {
                assert(p1.tasks@ =~= tasks_a.update(t as int, p1.tasks@[t as int]));
                lemma_own_sum_update(tasks_a, t as int, p1.tasks@[t as int], i);
            }
        }
        assert forall|i: int, q: int|
            0 <= i < p1.mutexes@.len() && 0 <= q < p1.mutexes@[i].queue@.len() implies (
        #[trigger] p1.mutexes@[i].queue@[q]) < p1.tasks@.len() by {
            if i == mutex_id as int {
                assert(p1.mutexes@[i].queue@[q] == p0.mutexes@[i].queue@[q + 1]);
                assert(p0.mutexes@[i].queue@[q + 1] < p0.tasks@.len());
            } else {
                assert(p0.mutexes@[i].queue@[q] < p0.tasks@.len());
            }
        }
        assert(queues_wf(p1));
        assert(proc_wf(p1));
        if h == t {
            let th0 = cur_thread(*old(k));
            assert(p1.tasks@[t as int].mutex_own@ =~= th0.mutex_own@.update(
                mutex_id as int,
                th0.mutex_own@[mutex_id as int],
            ));
            assert(p1.tasks@[t as int].mutex_require@ =~= th0.mutex_require@.update(
                mutex_id as int,
                spec_dec_floor(th0.mutex_require@[mutex_id as int]),
            ));
        }
        assert forall|i2: int| 0 <= i2 < k.ready@.len() implies entry_ok(
            k.procs@,
            #[trigger] k.ready@[i2],
        ) by {
            if i2 < old(k).ready@.len() {
                assert(entry_ok(old(k).procs@, old(k).ready@[i2]));
            }
        }
        crate::kernel::lemma_children_unchanged(old(k).procs@, k.procs@);
        assert(kernel_wf(*k));
    }
    0
}

/// How blocking on an empty semaphore relates the kernel before to the
/// kernel after, before the scheduler runs: the caller's request is
/// counted, it joins the semaphore's wait queue as Blocked, and the core
/// goes idle.
pub open spec fn sem_block_rel(a: Kernel, b: Kernel, id: int) -> bool {
    &&& a.running is Some
    &&& ({
        let (p, t) = cur_of(a);
        let p0 = cur_proc(a);
        let th0 = cur_thread(a);
        &&& b.running is None
        &&& b.ready == a.ready
        &&& b.sleepers == a.sleepers
        &&& b.programs == a.programs
        &&& b.now_us == a.now_us
        &&& procs_eq_except(b.procs@, a.procs@, p as int)
        &&& ({
            let p1 = b.procs@[p as int];
            &&& proc_frame(p1, p0)
            &&& p1.mutexes == p0.mutexes
            &&& p1.mutex_status == p0.mutex_status
            &&& p1.sem_status == p0.sem_status
            &&& p1.condvars == p0.condvars
            &&& p1.sems@.len() == p0.sems@.len()
            &&& forall|i: int|
                0 <= i < p0.sems@.len() && i != id ==> #[trigger] p1.sems@[i] == p0.sems@[i]
            &&& p1.sems@[id].queue@ == p0.sems@[id].queue@.push(t)
            &&& p1.tasks@.len() == p0.tasks@.len()
            &&& forall|u: int|
                0 <= u < p0.tasks@.len() && u != t ==> #[trigger] p1.tasks@[u] == p0.tasks@[u]
            &&& thread_sem_cell(
                p1.tasks@[t as int],
                th0,
                th0.sem_own@,
                th0.sem_require@.update(id, spec_sat_inc(th0.sem_require@[id])),
                TaskStatus::Blocked,
                th0.ret_val,
            )
        })
    })
}

/// Takes one unit of the semaphore, or refuses. An id outside the table
/// returns -1; with deadlock detection on, a request the detector finds
/// unsafe returns the deadlock sentinel and changes nothing. With a unit
/// available the call takes it at once and returns 0; with none the
/// caller blocks on the semaphore's queue until an up hands a unit over,
/// and the woken caller's syscall also ends in 0.
pub fn sys_semaphore_down(k: &mut Kernel, sem_id: usize) -> (r: isize)
    requires
        kernel_wf(*old(k)),
        old(k).running is Some,
    ensures
        kernel_wf(*final(k)),
        sem_id >= cur_proc(*old(k)).sems@.len() ==> r == -1 && *final(k) == *old(k),
        sem_id < cur_proc(*old(k)).sems@.len() ==> ({
            let (p, t) = cur_of(*old(k));
            let p0 = cur_proc(*old(k));
            let th0 = cur_thread(*old(k));
            let id = sem_id as int;
            &&& (sem_down_refused(*old(k), id) ==> r == DEADLOCK_RV && *final(k) == *old(k))
            &&& (!sem_down_refused(*old(k), id) && p0.sem_status@[id] > 0 ==> ({
                let p1 = final(k).procs@[p as int];
                &&& r == 0
                &&& same_kernel_except_procs(*final(k), *old(k))
                &&& procs_eq_except(final(k).procs@, old(k).procs@, p as int)
                &&& proc_frame(p1, p0)
                &&& p1.mutexes == p0.mutexes && p1.mutex_status == p0.mutex_status
                &&& p1.sems == p0.sems
                &&& p1.condvars == p0.condvars
                &&& p1.sem_status@ == p0.sem_status@.update(id, (p0.sem_status@[id] - 1) as i64)
                &&& p1.tasks@.len() == p0.tasks@.len()
                &&& forall|u: int|
                    0 <= u < p0.tasks@.len() && u != t ==> #[trigger] p1.tasks@[u] == p0.tasks@[u]
                &&& thread_sem_cell(
                    p1.tasks@[t as int],
                    th0,
                    th0.sem_own@.update(id, spec_sat_inc(th0.sem_own@[id])),
                    th0.sem_require@,
                    th0.status,
                    th0.ret_val,
                )
            }))
            &&& (!sem_down_refused(*old(k), id) && p0.sem_status@[id] <= 0 ==> ({
                &&& r == 0
                &&& exists|mid: Kernel| #[trigger] sem_block_rel(*old(k), mid, id) && sched_rel(
                    mid,
                    *final(k),
                )
            }))
        }),
{
    let (p, t) = k.running.unwrap();
    if sem_id >= k.procs[p].sems.len() {
        return -1;
    }
    proof {
        assert(proc_wf(k.procs@[p as int]));
        assert(thread_wf(
            cur_thread(*old(k)),
            cur_proc(*old(k)).mutexes@.len() as int,
            cur_proc(*old(k)).sems@.len() as int,
        ));
    }
    if k.procs[p].deadlock_detect {
        let rows = build_sem_rows(&k.procs[p], t, sem_id);
        proof {
            let p0 = cur_proc(*old(k));
            let rv = rows_view(rows@);
            assert forall|i: int| 0 <= i < rv.len() && rv[i] is Some implies rv[i]->Some_0.0.len()
                == p0.sem_status@.len() && rv[i]->Some_0.1.len() == p0.sem_status@.len() by {
                assert(thread_wf(p0.tasks@[i], p0.mutexes@.len() as int, p0.sems@.len() as int));
            }
            assert forall|i: int, j: int|
                0 <= i < rv.len() && rv[i] is Some && 0 <= j < p0.sem_status@.len()
                implies -RES_BOUND <= #[trigger] rv[i]->Some_0.1[j] <= RES_BOUND by {
                assert(thread_wf(p0.tasks@[i], p0.mutexes@.len() as int, p0.sems@.len() as int));
            }
            assert(detect_pre(rv, p0.sem_status@));
        }
        let safe = detect_safe(&rows, &k.procs[p].sem_status);
        if !safe {
            return DEADLOCK_RV;
        }
    }
    let avail = k.procs[p].sem_status[sem_id];
    if avail > 0 {
        k.procs[p].sem_status.set(sem_id, avail - 1);
        let v = k.procs[p].tasks[t].sem_own[sem_id];
        let v2 = sat_inc(v);
        k.procs[p].tasks[t].sem_own.set(sem_id, v2);
        proof {
            let p0 = cur_proc(*old(k));
            let p1 = k.procs@[p as int];
            assert forall|u: int| 0 <= u < p1.tasks@.len() implies thread_wf(
                #[trigger] p1.tasks@[u],
                p1.mutexes@.len() as int,
                p1.sems@.len() as int,
            ) by {
                assert(thread_wf(p0.tasks@[u], p0.mutexes@.len() as int, p0.sems@.len() as int));
            }
            assert forall|i: int| 0 <= i < p1.mutexes@.len() implies p1.mutex_status@[i]
                + #[trigger] own_sum(p1.tasks@, i) == 1 by {
                assert forall|u: int| 0 <= u < p1.tasks@.len() implies own_entry(
                    #[trigger] p1.tasks@[u],
                    i,
                ) == own_entry(p0.tasks@[u], i) by {}
                lemma_own_sum_congruent(p1.tasks@, p0.tasks@, i);
            }
            assert(queues_wf(p1));
            assert(proc_wf(p1));
            crate::kernel::lemma_children_unchanged(old(k).procs@, k.procs@);
        }
        return 0;
    }
    let vreq = k.procs[p].tasks[t].sem_require[sem_id];
    let vreq2 = sat_inc(vreq);
    k.procs[p].tasks[t].sem_require.set(sem_id, vreq2);
    k.procs[p].tasks[t].status = TaskStatus::Blocked;
    k.procs[p].sems[sem_id].queue.push(t);
    k.running = None;
    proof {
        let p0 = cur_proc(*old(k));
        let p1 = k.procs@[p as int];
        assert forall|u: int| 0 <= u < p1.tasks@.len() implies thread_wf(
            #[trigger] p1.tasks@[u],
            p1.mutexes@.len() as int,
            p1.sems@.len() as int,
        ) by {
            assert(thread_wf(p0.tasks@[u], p0.mutexes@.len() as int, p0.sems@.len() as int));
        }
        assert forall|i: int| 0 <= i < p1.mutexes@.len() implies p1.mutex_status@[i]
            + #[trigger] own_sum(p1.tasks@, i) == 1 by {
            assert forall|u: int| 0 <= u < p1.tasks@.len() implies own_entry(
                #[trigger] p1.tasks@[u],
                i,
            ) == own_entry(p0.tasks@[u], i) by {}
            lemma_own_sum_congruent(p1.tasks@, p0.tasks@, i);
        }
        assert forall|i: int, q: int|
            0 <= i < p1.sems@.len() && 0 <= q < p1.sems@[i].queue@.len() implies (
        #[trigger] p1.sems@[i].queue@[q]) < p1.tasks@.len() by {
            if i == sem_id as int && q == p1.sems@[i].queue@.len() - 1 {
            } else {
                assert(p0.sems@[i].queue@[q] < p0.tasks@.len());
            }
        }
        assert(queues_wf(p1));
        assert(proc_wf(p1));
        crate::kernel::lemma_children_unchanged(old(k).procs@, k.procs@);
        assert(kernel_wf(*k));
        assert(sem_block_rel(*old(k), *k, sem_id as int));
    }
    let ghost mid = *k;
    k.schedule_next();
    proof {
        assert(sem_block_rel(*old(k), mid, sem_id as int) && sched_rel(mid, *k));
    }
    0
}

/// Returns one unit to the semaphore. With waiters, the unit passes
/// straight to the first of them — its ledger takes it, its pending
/// request is cleared, and it is woken with result 0 — and the available
/// count stays as it was; with no waiter the count grows by one, held at
/// the machine bound. The caller's held count drops by one either way.
pub fn sys_semaphore_up(k: &mut Kernel, sem_id: usize) -> (r: isize)
    requires
        kernel_wf(*old(k)),
        old(k).running is Some,
    ensures
        kernel_wf(*final(k)),
        sem_id >= cur_proc(*old(k)).sems@.len() ==> r == -1 && *final(k) == *old(k),
        sem_id < cur_proc(*old(k)).sems@.len() ==> ({
            let (p, t) = cur_of(*old(k));
            let p0 = cur_proc(*old(k));
            let th0 = cur_thread(*old(k));
            let id = sem_id as int;
            let queue0 = p0.sems@[id].queue@;
            let p1 = final(k).procs@[p as int];
            &&& r == 0
            &&& final(k).running == old(k).running
            &&& final(k).sleepers == old(k).sleepers
            &&& final(k).programs == old(k).programs
            &&& final(k).now_us == old(k).now_us
            &&& procs_eq_except(final(k).procs@, old(k).procs@, p as int)
            &&& proc_frame(p1, p0)
            &&& p1.mutexes == p0.mutexes && p1.mutex_status == p0.mutex_status
            &&& p1.condvars == p0.condvars
            &&& p1.tasks@.len() == p0.tasks@.len()
            &&& (queue0.len() == 0 ==> ({
                &&& final(k).ready == old(k).ready
                &&& p1.sems == p0.sems
                &&& p1.sem_status@ == p0.sem_status@.update(
                    id,
                    spec_sat_inc(p0.sem_status@[id]),
                )
                &&& forall|u: int|
                    0 <= u < p0.tasks@.len() && u != t ==> #[trigger] p1.tasks@[u] == p0.tasks@[u]
                &&& thread_sem_cell(
                    p1.tasks@[t as int],
                    th0,
                    th0.sem_own@.update(id, spec_sat_dec(th0.sem_own@[id])),
                    th0.sem_require@,
                    th0.status,
                    th0.ret_val,
                )
            }))
            &&& (queue0.len() > 0 ==> ({
                let h = queue0[0];
                &&& p1.sem_status == p0.sem_status
                &&& p1.sems@.len() == p0.sems@.len()
                &&& forall|i: int|
                    0 <= i < p0.sems@.len() && i != id ==> #[trigger] p1.sems@[i] == p0.sems@[i]
                &&& p1.sems@[id].queue@ == queue0.remove(0)
                &&& final(k).ready@ == old(k).ready@.push((p, h))
                &&& (h != t ==> ({
                    &&& forall|u: int|
                        0 <= u < p0.tasks@.len() && u != t && u != h ==> #[trigger] p1.tasks@[u]
                            == p0.tasks@[u]
                    &&& thread_sem_cell(
                        p1.tasks@[t as int],
                        th0,
                        th0.sem_own@.update(id, spec_sat_dec(th0.sem_own@[id])),
                        th0.sem_require@,
                        th0.status,
                        th0.ret_val,
                    )
                    &&& ({
                        let hb = p0.tasks@[h as int];
                        thread_sem_cell(
                            p1.tasks@[h as int],
                            hb,
                            hb.sem_own@.update(id, spec_sat_inc(hb.sem_own@[id])),
                            hb.sem_require@.update(id, spec_dec_floor(hb.sem_require@[id])),
                            TaskStatus::Ready,
                            0,
                        )
                    })
                }))
                &&& (h == t ==> ({
                    &&& forall|u: int|
                        0 <= u < p0.tasks@.len() && u != t ==> #[trigger] p1.tasks@[u]
                            == p0.tasks@[u]
                    &&& thread_sem_cell(
                        p1.tasks@[t as int],
                        th0,
                        th0.sem_own@.update(
                            id,
                            spec_sat_inc(spec_sat_dec(th0.sem_own@[id])),
                        ),
                        th0.sem_require@.update(id, spec_dec_floor(th0.sem_require@[id])),
                        TaskStatus::Ready,
                        0,
                    )
                }))
            }))
        }),
{
    let (p, t) = k.running.unwrap();
    if sem_id >= k.procs[p].sems.len() {
        return -1;
    }
    proof {
        assert(proc_wf(k.procs@[p as int]));
        assert(thread_wf(
            cur_thread(*old(k)),
            cur_proc(*old(k)).mutexes@.len() as int,
            cur_proc(*old(k)).sems@.len() as int,
        ));
    }
    let v = k.procs[p].tasks[t].sem_own[sem_id];
    let v2 = sat_dec(v);
    k.procs[p].tasks[t].sem_own.set(sem_id, v2);
    if k.procs[p].sems[sem_id].queue.len() == 0 {
        let avail = k.procs[p].sem_status[sem_id];
        let avail2 = sat_inc(avail);
        k.procs[p].sem_status.set(sem_id, avail2);
        proof {
            let p0 = cur_proc(*old(k));
            let p1 = k.procs@[p as int];
            assert forall|u: int| 0 <= u < p1.tasks@.len() implies thread_wf(
                #[trigger] p1.tasks@[u],
                p1.mutexes@.len() as int,
                p1.sems@.len() as int,
            ) by {
                assert(thread_wf(p0.tasks@[u], p0.mutexes@.len() as int, p0.sems@.len() as int));
            }
            assert forall|i: int| 0 <= i < p1.mutexes@.len() implies p1.mutex_status@[i]
                + #[trigger] own_sum(p1.tasks@, i) == 1 by {
                assert forall|u: int| 0 <= u < p1.tasks@.len() implies own_entry(
                    #[trigger] p1.tasks@[u],
                    i,
                ) == own_entry(p0.tasks@[u], i) by {}
                lemma_own_sum_congruent(p1.tasks@, p0.tasks@, i);
            }
            assert(queues_wf(p1));
            assert(proc_wf(p1));
            crate::kernel::lemma_children_unchanged(old(k).procs@, k.procs@);
        }
        return 0;
    }
    let h = k.procs[p].sems[sem_id].queue.remove(0);
    proof {
        assert(cur_proc(*old(k)).sems@[sem_id as int].queue@[0] < cur_proc(*old(k)).tasks@.len());
    }
    let hv = k.procs[p].tasks[h].sem_own[sem_id];
    let hv2 = sat_inc(hv);
    let hreq = k.procs[p].tasks[h].sem_require[sem_id];
    let hreq2 = dec_floor(hreq);
    k.procs[p].tasks[h].sem_own.set(sem_id, hv2);
    k.procs[p].tasks[h].sem_require.set(sem_id, hreq2);
    k.procs[p].tasks[h].status = TaskStatus::Ready;
    k.procs[p].tasks[h].ret_val = 0;
    k.ready.push((p, h));
    proof {
        let p0 = cur_proc(*old(k));
        let p1 = k.procs@[p as int];
        assert forall|u: int| 0 <= u < p1.tasks@.len() implies thread_wf(
            #[trigger] p1.tasks@[u],
            p1.mutexes@.len() as int,
            p1.sems@.len() as int,
        ) by {
            assert(thread_wf(p0.tasks@[u], p0.mutexes@.len() as int, p0.sems@.len() as int));
        }
        assert forall|i: int| 0 <= i < p1.mutexes@.len() implies p1.mutex_status@[i]
            + #[trigger] own_sum(p1.tasks@, i) == 1 by {
            assert forall|u: int| 0 <= u < p1.tasks@.len() implies own_entry(
                #[trigger] p1.tasks@[u],
                i,
            ) == own_entry(p0.tasks@[u], i) by {}
            lemma_own_sum_congruent(p1.tasks@, p0.tasks@, i);
        }
        assert forall|i: int, q: int|
            0 <= i < p1.sems@.len() && 0 <= q < p1.sems@[i].queue@.len() implies (
        #[trigger] p1.sems@[i].queue@[q]) < p1.tasks@.len() by {
            if i == sem_id as int {
                assert(p1.sems@[i].queue@[q] == p0.sems@[i].queue@[q + 1]);
                assert(p0.sems@[i].queue@[q + 1] < p0.tasks@.len());
            } else {
                assert(p0.sems@[i].queue@[q] < p0.tasks@.len());
            }
        }
        assert(queues_wf(p1));
        assert(proc_wf(p1));
        if h == t {
            let th0 = cur_thread(*old(k));
            assert(p1.tasks@[t as int].sem_own@ =~= th0.sem_own@.update(
                sem_id as int,
                spec_sat_inc(spec_sat_dec(th0.sem_own@[sem_id as int])),
            ));
            assert(p1.tasks@[t as int].sem_require@ =~= th0.sem_require@.update(
                sem_id as int,
                spec_dec_floor(th0.sem_require@[sem_id as int]),
            ));
        }
        assert forall|i2: int| 0 <= i2 < k.ready@.len() implies entry_ok(
            k.procs@,
            #[trigger] k.ready@[i2],
        ) by {
            if i2 < old(k).ready@.len() {
                assert(entry_ok(old(k).procs@, old(k).ready@[i2]));
            }
        }
        crate::kernel::lemma_children_unchanged(old(k).procs@, k.procs@);
        assert(kernel_wf(*k));
    }
    0
}

/// Wakes one waiter of the condition variable, if any: the waiter either
/// re-acquires its mutex at once (taking the free unit and becoming
/// runnable with result 0) or joins that mutex's wait queue with its
/// request counted. With no waiter the call is a no-op. Returns 0 for a
/// valid id, -1 otherwise.
pub fn sys_condvar_signal(k: &mut Kernel, condvar_id: usize) -> (r: isize)
    requires
        kernel_wf(*old(k)),
        old(k).running is Some,
    ensures
        kernel_wf(*final(k)),
        condvar_id >= cur_proc(*old(k)).condvars@.len() ==> r == -1 && *final(k) == *old(k),
        condvar_id < cur_proc(*old(k)).condvars@.len() ==> ({
            let (p, t) = cur_of(*old(k));
            let p0 = cur_proc(*old(k));
            let cv = condvar_id as int;
            let queue0 = p0.condvars@[cv].queue@;
            &&& r == 0
            &&& (queue0.len() == 0 ==> *final(k) == *old(k))
            &&& (queue0.len() > 0 ==> ({
                let h = queue0[0].0;
                let mid = queue0[0].1 as int;
                let p1 = final(k).procs@[p as int];
                &&& final(k).running == old(k).running
                &&& final(k).sleepers == old(k).sleepers
                &&& final(k).programs == old(k).programs
                &&& final(k).now_us == old(k).now_us
                &&& procs_eq_except(final(k).procs@, old(k).procs@, p as int)
                &&& proc_frame(p1, p0)
                &&& p1.sems == p0.sems && p1.sem_status == p0.sem_status
                &&& p1.condvars@.len() == p0.condvars@.len()
                &&& forall|i: int|
                    0 <= i < p0.condvars@.len() && i != cv ==> #[trigger] p1.condvars@[i]
                        == p0.condvars@[i]
                &&& p1.condvars@[cv].queue@ == queue0.remove(0)
                &&& p1.tasks@.len() == p0.tasks@.len()
                &&& forall|u: int|
                    0 <= u < p0.tasks@.len() && u != h ==> #[trigger] p1.tasks@[u] == p0.tasks@[u]
                &&& (p0.mutex_status@[mid] == 1 ==> ({
                    let hb = p0.tasks@[h as int];
                    &&& p1.mutexes == p0.mutexes
                    &&& p1.mutex_status@ == p0.mutex_status@.update(mid, 0i64)
                    &&& final(k).ready@ == old(k).ready@.push((p, h))
                    &&& thread_mutex_cell(
                        p1.tasks@[h as int],
                        hb,
                        hb.mutex_own@.update(mid, (hb.mutex_own@[mid] + 1) as i64),
                        hb.mutex_require@,
                        TaskStatus::Ready,
                        0,
                    )
                }))
                &&& (p0.mutex_status@[mid] != 1 ==> ({
                    let hb = p0.tasks@[h as int];
                    &&& p1.mutex_status == p0.mutex_status
                    &&& final(k).ready == old(k).ready
                    &&& p1.mutexes@.len() == p0.mutexes@.len()
                    &&& forall|i: int|
                        0 <= i < p0.mutexes@.len() && i != mid ==> #[trigger] p1.mutexes@[i]
                            == p0.mutexes@[i]
                    &&& p1.mutexes@[mid].blocking == p0.mutexes@[mid].blocking
                    &&& p1.mutexes@[mid].queue@ == p0.mutexes@[mid].queue@.push(h)
                    &&& thread_mutex_cell(
                        p1.tasks@[h as int],
                        hb,
                        hb.mutex_own@,
                        hb.mutex_require@.update(mid, spec_sat_inc(hb.mutex_require@[mid])),
                        hb.status,
                        hb.ret_val,
                    )
                }))
            }))
        }),
{
    let (p, _t) = k.running.unwrap();
    if condvar_id >= k.procs[p].condvars.len() {
        return -1;
    }
    proof {
        assert(proc_wf(k.procs@[p as int]));
    }
    if k.procs[p].condvars[condvar_id].queue.len() == 0 {
        return 0;
    }
    let (h, mid) = k.procs[p].condvars[condvar_id].queue.remove(0);
    proof {
        let p0 = cur_proc(*old(k));
        assert((p0.condvars@[condvar_id as int].queue@[0]).0 < p0.tasks@.len());
        assert(p0.condvars@[condvar_id as int].queue@[0].1 < p0.mutexes@.len());
    }
    if k.procs[p].mutex_status[mid] == 1 {
        let hv = k.procs[p].tasks[h].mutex_own[mid];
        proof {
            let p0 = cur_proc(*old(k));
            assert forall|u: int| 0 <= u < p0.tasks@.len() implies own_entry(
                #[trigger] p0.tasks@[u],
                mid as int,
            ) >= 0 by {
                assert(thread_wf(p0.tasks@[u], p0.mutexes@.len() as int, p0.sems@.len() as int));
            }
            lemma_own_entry_le_sum(p0.tasks@, h as int, mid as int);
            assert(hv == 0);
        }
        k.procs[p].mutex_status.set(mid, 0);
        k.procs[p].tasks[h].mutex_own.set(mid, hv + 1);
        k.procs[p].tasks[h].status = TaskStatus::Ready;
        k.procs[p].tasks[h].ret_val = 0;
        k.ready.push((p, h));
        proof {
            let p0 = cur_proc(*old(k));
            let p1 = k.procs@[p as int];
            assert forall|u: int| 0 <= u < p1.tasks@.len() implies thread_wf(
                #[trigger] p1.tasks@[u],
                p1.mutexes@.len() as int,
                p1.sems@.len() as int,
            ) by {
                assert(thread_wf(p0.tasks@[u], p0.mutexes@.len() as int, p0.sems@.len() as int));
            }
            assert(p1.tasks@ =~= p0.tasks@.update(h as int, p1.tasks@[h as int]));
            assert forall|i: int| 0 <= i < p1.mutexes@.len() implies p1.mutex_status@[i]
                + #[trigger] own_sum(p1.tasks@, i) == 1 by {
                lemma_own_sum_update(p0.tasks@, h as int, p1.tasks@[h as int], i);
            }
            assert forall|i: int, q: int|
                0 <= i < p1.condvars@.len() && 0 <= q < p1.condvars@[i].queue@.len() implies (
            #[trigger] p1.condvars@[i].queue@[q]).0 < p1.tasks@.len() && p1.condvars@[
                i
            ].queue@[q].1 < p1.mutexes@.len() by {
                if i == condvar_id as int {
                    assert(p1.condvars@[i].queue@[q] == p0.condvars@[i].queue@[q + 1]);
                    assert((p0.condvars@[i].queue@[q + 1]).0 < p0.tasks@.len());
                    assert(p0.condvars@[i].queue@[q + 1].1 < p0.mutexes@.len());
                } else {
                    assert((p0.condvars@[i].queue@[q]).0 < p0.tasks@.len());
                    assert(p0.condvars@[i].queue@[q].1 < p0.mutexes@.len());
                }
            }
            assert(queues_wf(p1));
            assert(proc_wf(p1));
            assert forall|i2: int| 0 <= i2 < k.ready@.len() implies entry_ok(
                k.procs@,
                #[trigger] k.ready@[i2],
            ) by {
                if i2 < old(k).ready@.len() {
                    assert(entry_ok(old(k).procs@, old(k).ready@[i2]));
                }
            }
            crate::kernel::lemma_children_unchanged(old(k).procs@, k.procs@);
        assert(kernel_wf(*k));
        }
    } else {
        let hreq = k.procs[p].tasks[h].mutex_require[mid];
        let hreq2 = sat_inc(hreq);
        k.procs[p].tasks[h].mutex_require.set(mid, hreq2);
        k.procs[p].mutexes[mid].queue.push(h);
        proof {
            let p0 = cur_proc(*old(k));
            let p1 = k.procs@[p as int];
            assert forall|u: int| 0 <= u < p1.tasks@.len() implies thread_wf(
                #[trigger] p1.tasks@[u],
                p1.mutexes@.len() as int,
                p1.sems@.len() as int,
            ) by {
                assert(thread_wf(p0.tasks@[u], p0.mutexes@.len() as int, p0.sems@.len() as int));
            }
            assert forall|i: int| 0 <= i < p1.mutexes@.len() implies p1.mutex_status@[i]
                + #[trigger] own_sum(p1.tasks@, i) == 1 by {
                assert forall|u: int| 0 <= u < p1.tasks@.len() implies own_entry(
                    #[trigger] p1.tasks@[u],
                    i,
                ) == own_entry(p0.tasks@[u], i) by {}
                lemma_own_sum_congruent(p1.tasks@, p0.tasks@, i);
            }
            assert forall|i: int, q: int|
                0 <= i < p1.mutexes@.len() && 0 <= q < p1.mutexes@[i].queue@.len() implies (
            #[trigger] p1.mutexes@[i].queue@[q]) < p1.tasks@.len() by {
                if i == mid as int && q == p1.mutexes@[i].queue@.len() - 1 {
                } else {
                    assert(p0.mutexes@[i].queue@[q] < p0.tasks@.len());
                }
            }
            assert forall|i: int, q: int|
                0 <= i < p1.condvars@.len() && 0 <= q < p1.condvars@[i].queue@.len() implies (
            #[trigger] p1.condvars@[i].queue@[q]).0 < p1.tasks@.len() && p1.condvars@[
                i
            ].queue@[q].1 < p1.mutexes@.len() by {
                if i == condvar_id as int {
                    assert(p1.condvars@[i].queue@[q] == p0.condvars@[i].queue@[q + 1]);
                    assert((p0.condvars@[i].queue@[q + 1]).0 < p0.tasks@.len());
                    assert(p0.condvars@[i].queue@[q + 1].1 < p0.mutexes@.len());
                } else {
                    assert((p0.condvars@[i].queue@[q]).0 < p0.tasks@.len());
                    assert(p0.condvars@[i].queue@[q].1 < p0.mutexes@.len());
                }
            }
            assert(queues_wf(p1));
            assert(proc_wf(p1));
            crate::kernel::lemma_children_unchanged(old(k).procs@, k.procs@);
        assert(kernel_wf(*k));
        }
    }
    0
}

/// How a condvar wait relates the kernel before to the kernel after,
/// before the scheduler runs: the caller releases the paired mutex (its
/// unit passing to the first mutex waiter if there is one), joins the
/// condition variable's queue remembering that mutex, blocks, and the
/// core goes idle.
pub open spec fn condvar_wait_rel(a: Kernel, b: Kernel, cv: int, mid: int) -> bool {
    &&& a.running is Some
    &&& ({
        let (p, t) = cur_of(a);
        let p0 = cur_proc(a);
        let th0 = cur_thread(a);
        let mqueue0 = p0.mutexes@[mid].queue@;
        let p1 = b.procs@[p as int];
        &&& b.running is None
        &&& b.sleepers == a.sleepers
        &&& b.programs == a.programs
        &&& b.now_us == a.now_us
        &&& procs_eq_except(b.procs@, a.procs@, p as int)
        &&& proc_frame(p1, p0)
        &&& p1.sems == p0.sems && p1.sem_status == p0.sem_status
        &&& p1.condvars@.len() == p0.condvars@.len()
        &&& forall|i: int|
            0 <= i < p0.condvars@.len() && i != cv ==> #[trigger] p1.condvars@[i]
                == p0.condvars@[i]
        &&& p1.condvars@[cv].queue@ == p0.condvars@[cv].queue@.push((t, mid as usize))
        &&& p1.tasks@.len() == p0.tasks@.len()
        &&& (mqueue0.len() == 0 ==> ({
            &&& b.ready == a.ready
            &&& p1.mutexes == p0.mutexes
            &&& p1.mutex_status@ == p0.mutex_status@.update(mid, 1i64)
            &&& forall|u: int|
                0 <= u < p0.tasks@.len() && u != t ==> #[trigger] p1.tasks@[u] == p0.tasks@[u]
            &&& thread_mutex_cell(
                p1.tasks@[t as int],
                th0,
                th0.mutex_own@.update(mid, (th0.mutex_own@[mid] - 1) as i64),
                th0.mutex_require@,
                TaskStatus::Blocked,
                th0.ret_val,
            )
        }))
        &&& (mqueue0.len() > 0 ==> ({
            let h = mqueue0[0];
            &&& p1.mutex_status == p0.mutex_status
            &&& p1.mutexes@.len() == p0.mutexes@.len()
            &&& forall|i: int|
                0 <= i < p0.mutexes@.len() && i != mid ==> #[trigger] p1.mutexes@[i]
                    == p0.mutexes@[i]
            &&& p1.mutexes@[mid].blocking == p0.mutexes@[mid].blocking
            &&& p1.mutexes@[mid].queue@ == mqueue0.remove(0)
            &&& b.ready@ == a.ready@.push((p, h))
            &&& (h != t ==> ({
                &&& forall|u: int|
                    0 <= u < p0.tasks@.len() && u != t && u != h ==> #[trigger] p1.tasks@[u]
                        == p0.tasks@[u]
                &&& thread_mutex_cell(
                    p1.tasks@[t as int],
                    th0,
                    th0.mutex_own@.update(mid, (th0.mutex_own@[mid] - 1) as i64),
                    th0.mutex_require@,
                    TaskStatus::Blocked,
                    th0.ret_val,
                )
                &&& ({
                    let hb = p0.tasks@[h as int];
                    thread_mutex_cell(
                        p1.tasks@[h as int],
                        hb,
                        hb.mutex_own@.update(mid, (hb.mutex_own@[mid] + 1) as i64),
                        hb.mutex_require@.update(mid, spec_dec_floor(hb.mutex_require@[mid])),
                        TaskStatus::Ready,
                        0,
                    )
                })
            }))
            &&& (h == t ==> ({
                &&& forall|u: int|
                    0 <= u < p0.tasks@.len() && u != t ==> #[trigger] p1.tasks@[u] == p0.tasks@[u]
                &&& thread_mutex_cell(
                    p1.tasks@[t as int],
                    th0,
                    th0.mutex_own@.update(mid, th0.mutex_own@[mid]),
                    th0.mutex_require@.update(mid, spec_dec_floor(th0.mutex_require@[mid])),
                    TaskStatus::Ready,
                    0,
                )
            }))
        }))
    })
}

/// Waits on the condition variable: releases the paired mutex — which the
/// caller must hold — queues the caller on the condition variable
/// remembering that mutex, and blocks until a signal lets it re-acquire
/// the mutex; the woken caller's syscall ends in 0 only once it holds the
/// mutex again. Ids outside the tables return -1 with no change.
pub fn sys_condvar_wait(k: &mut Kernel, condvar_id: usize, mutex_id: usize) -> (r: isize)
    requires
        kernel_wf(*old(k)),
        old(k).running is Some,
        condvar_id < cur_proc(*old(k)).condvars@.len() && mutex_id < cur_proc(
            *old(k),
        ).mutexes@.len() ==> cur_thread(*old(k)).mutex_own@[mutex_id as int] >= 1,
    ensures
        kernel_wf(*final(k)),
        condvar_id >= cur_proc(*old(k)).condvars@.len() || mutex_id >= cur_proc(
            *old(k),
        ).mutexes@.len() ==> r == -1 && *final(k) == *old(k),
        condvar_id < cur_proc(*old(k)).condvars@.len() && mutex_id < cur_proc(
            *old(k),
        ).mutexes@.len() ==> ({
            &&& r == 0
            &&& exists|mid_k: Kernel| #[trigger] condvar_wait_rel(
                *old(k),
                mid_k,
                condvar_id as int,
                mutex_id as int,
            ) && sched_rel(mid_k, *final(k))
        }),
{
    let (p, t) = k.running.unwrap();
    if condvar_id >= k.procs[p].condvars.len() || mutex_id >= k.procs[p].mutexes.len() {
        return -1;
    }
    proof {
        assert(proc_wf(k.procs@[p as int]));
        assert(thread_wf(
            cur_thread(*old(k)),
            cur_proc(*old(k)).mutexes@.len() as int,
            cur_proc(*old(k)).sems@.len() as int,
        ));
    }
    let v = k.procs[p].tasks[t].mutex_own[mutex_id];
    k.procs[p].tasks[t].mutex_own.set(mutex_id, v - 1);
    k.procs[p].tasks[t].status = TaskStatus::Blocked;
    k.procs[p].condvars[condvar_id].queue.push((t, mutex_id));
    if k.procs[p].mutexes[mutex_id].queue.len() == 0 {
        k.procs[p].mutex_status.set(mutex_id, 1);
        proof {
            let p0 = cur_proc(*old(k));
            let p1 = k.procs@[p as int];
            assert forall|u: int| 0 <= u < p1.tasks@.len() implies thread_wf(
                #[trigger] p1.tasks@[u],
                p1.mutexes@.len() as int,
                p1.sems@.len() as int,
            ) by {
                assert(thread_wf(p0.tasks@[u], p0.mutexes@.len() as int, p0.sems@.len() as int));
            }
            assert forall|u: int| 0 <= u < p0.tasks@.len() implies own_entry(
                #[trigger] p0.tasks@[u],
                mutex_id as int,
            ) >= 0 by {
                assert(thread_wf(p0.tasks@[u], p0.mutexes@.len() as int, p0.sems@.len() as int));
            }
            lemma_own_entry_le_sum(p0.tasks@, t as int, mutex_id as int);
            assert(p0.mutex_status@[mutex_id as int] == 0);
            assert(p1.tasks@ =~= p0.tasks@.update(t as int, p1.tasks@[t as int]));
            assert forall|i: int| 0 <= i < p1.mutexes@.len() implies p1.mutex_status@[i]
                + #[trigger] own_sum(p1.tasks@, i) == 1 by {
                lemma_own_sum_update(p0.tasks@, t as int, p1.tasks@[t as int], i);
            }
            assert forall|i: int, q: int|
                0 <= i < p1.condvars@.len() && 0 <= q < p1.condvars@[i].queue@.len() implies (
            #[trigger] p1.condvars@[i].queue@[q]).0 < p1.tasks@.len() && p1.condvars@[
                i
            ].queue@[q].1 < p1.mutexes@.len() by {
                if !(i == condvar_id as int && q == p1.condvars@[i].queue@.len() - 1) {
                    assert((p0.condvars@[i].queue@[q]).0 < p0.tasks@.len());
                    assert(p0.condvars@[i].queue@[q].1 < p0.mutexes@.len());
                }
            }
            assert(queues_wf(p1));
            assert(proc_wf(p1));
            crate::kernel::lemma_children_unchanged(old(k).procs@, k.procs@);
        assert(kernel_wf(*k));
        }
    } else {
        let h = k.procs[p].mutexes[mutex_id].queue.remove(0);
        proof {
            assert(cur_proc(*old(k)).mutexes@[mutex_id as int].queue@[0]
                < cur_proc(*old(k)).tasks@.len());
        }
        let hv = k.procs[p].tasks[h].mutex_own[mutex_id];
        proof {
            let p0 = cur_proc(*old(k));
            let pm = k.procs@[p as int];
            assert forall|u: int| 0 <= u < p0.tasks@.len() implies own_entry(
                #[trigger] p0.tasks@[u],
                mutex_id as int,
            ) >= 0 by {
                assert(thread_wf(p0.tasks@[u], p0.mutexes@.len() as int, p0.sems@.len() as int));
            }
            lemma_own_entry_le_sum(p0.tasks@, t as int, mutex_id as int);
            assert(p0.mutex_status@[mutex_id as int] == 0);
            assert(pm.tasks@ =~= p0.tasks@.update(t as int, pm.tasks@[t as int]));
            lemma_own_sum_update(p0.tasks@, t as int, pm.tasks@[t as int], mutex_id as int);
            assert(own_sum(pm.tasks@, mutex_id as int) == 0);
            assert forall|u: int| 0 <= u < pm.tasks@.len() implies own_entry(
                #[trigger] pm.tasks@[u],
                mutex_id as int,
            ) >= 0 by {
                assert(thread_wf(p0.tasks@[u], p0.mutexes@.len() as int, p0.sems@.len() as int));
            }
            lemma_own_entry_le_sum(pm.tasks@, h as int, mutex_id as int);
            assert(hv == 0);
        }
        let hreq = k.procs[p].tasks[h].mutex_require[mutex_id];
        let hreq2 = dec_floor(hreq);
        k.procs[p].tasks[h].mutex_own.set(mutex_id, hv + 1);
        k.procs[p].tasks[h].mutex_require.set(mutex_id, hreq2);
        k.procs[p].tasks[h].status = TaskStatus::Ready;
        k.procs[p].tasks[h].ret_val = 0;
        k.ready.push((p, h));
        proof {
            let p0 = cur_proc(*old(k));
            let p1 = k.procs@[p as int];
            assert forall|u: int| 0 <= u < p1.tasks@.len() implies thread_wf(
                #[trigger] p1.tasks@[u],
                p1.mutexes@.len() as int,
                p1.sems@.len() as int,
            ) by {
                assert(thread_wf(p0.tasks@[u], p0.mutexes@.len() as int, p0.sems@.len() as int));
                if u == h as int {
                    assert(0 <= hreq2 <= RES_BOUND);
                }
            }
            assert forall|i: int| 0 <= i < p1.mutexes@.len() implies p1.mutex_status@[i]
                + #[trigger] own_sum(p1.tasks@, i) == 1 by {
                let tasks_a = p0.tasks@;
                let tasks_b = tasks_a.update(t as int, p1.tasks@[t as int]);
                if h != t {
                    lemma_own_sum_update(tasks_a, t as int, tasks_b[t as int], i);
                    assert(p1.tasks@ =~= tasks_b.update(h as int, p1.tasks@[h as int]));
                    lemma_own_sum_update(tasks_b, h as int, p1.tasks@[h as int], i);
                } else {
                    assert(p1.tasks@ =~= tasks_a.update(t as int, p1.tasks@[t as int]));
                    lemma_own_sum_update(tasks_a, t as int, p1.tasks@[t as int], i);
                }
            }
            assert forall|i: int, q: int|
                0 <= i < p1.mutexes@.len() && 0 <= q < p1.mutexes@[i].queue@.len() implies (
            #[trigger] p1.mutexes@[i].queue@[q]) < p1.tasks@.len() by {
                if i == mutex_id as int {
                    assert(p1.mutexes@[i].queue@[q] == p0.mutexes@[i].queue@[q + 1]);
                    assert(p0.mutexes@[i].queue@[q + 1] < p0.tasks@.len());
                } else {
                    assert(p0.mutexes@[i].queue@[q] < p0.tasks@.len());
                }
            }
            assert forall|i: int, q: int|
                0 <= i < p1.condvars@.len() && 0 <= q < p1.condvars@[i].queue@.len() implies (
            #[trigger] p1.condvars@[i].queue@[q]).0 < p1.tasks@.len() && p1.condvars@[
                i
            ].queue@[q].1 < p1.mutexes@.len() by {
                if !(i == condvar_id as int && q == p1.condvars@[i].queue@.len() - 1) {
                    assert((p0.condvars@[i].queue@[q]).0 < p0.tasks@.len());
                    assert(p0.condvars@[i].queue@[q].1 < p0.mutexes@.len());
                }
            }
            assert(queues_wf(p1));
            assert(proc_wf(p1));
            assert forall|i2: int| 0 <= i2 < k.ready@.len() implies entry_ok(
                k.procs@,
                #[trigger] k.ready@[i2],
            ) by {
                if i2 < old(k).ready@.len() {
                    assert(entry_ok(old(k).procs@, old(k).ready@[i2]));
                }
            }
            if h == t {
                assert(p1.tasks@[t as int].mutex_own@ =~= cur_thread(*old(k)).mutex_own@.update(
                    mutex_id as int,
                    cur_thread(*old(k)).mutex_own@[mutex_id as int],
                ));
                assert(p1.tasks@[t as int].mutex_require@ =~= cur_thread(
                    *old(k),
                ).mutex_require@.update(
                    mutex_id as int,
                    spec_dec_floor(cur_thread(*old(k)).mutex_require@[mutex_id as int]),
                ));
            }
            crate::kernel::lemma_children_unchanged(old(k).procs@, k.procs@);
            assert(kernel_wf(*k));
        }
    }
    k.running = None;
    proof {
        crate::kernel::lemma_children_unchanged(old(k).procs@, k.procs@);
        assert(kernel_wf(*k));
        assert(condvar_wait_rel(*old(k), *k, condvar_id as int, mutex_id as int));
    }
    let ghost mid_k = *k;
    k.schedule_next();
    proof {
        assert(condvar_wait_rel(*old(k), mid_k, condvar_id as int, mutex_id as int) && sched_rel(
            mid_k,
            *k,
        ));
    }
    0
}

/// How going to sleep relates the kernel before to the kernel after,
/// before the scheduler runs: the caller blocks, an entry with its wake
/// time joins the sleeper list, and the core goes idle. The wake time is
/// now plus the requested span in milliseconds, held at the top of the
/// clock's range.
pub open spec fn sleep_rel(a: Kernel, b: Kernel, ms: usize) -> bool {
    &&& a.running is Some
    &&& ({
        let (p, t) = cur_of(a);
        let p0 = cur_proc(a);
        let th0 = cur_thread(a);
        let now_ms = a.now_us / 1000;
        let wake = if now_ms + ms > usize::MAX {
            usize::MAX as int
        } else {
            now_ms + ms
        };
        &&& b.running is None
        &&& b.ready == a.ready
        &&& b.sleepers@ == a.sleepers@.push(((wake as usize), p, t))
        &&& b.programs == a.programs
        &&& b.now_us == a.now_us
        &&& procs_eq_except(b.procs@, a.procs@, p as int)
        &&& same_proc_except_tasks(b.procs@[p as int], p0)
        &&& b.procs@[p as int].tasks@ == p0.tasks@.update(
            t as int,
            (Thread { status: TaskStatus::Blocked, ..th0 }),
        )
    })
}

/// Puts the calling thread to sleep for `ms` milliseconds: it blocks, a
/// wake timer is registered, and the scheduler dispatches another thread.
/// The sleeper's syscall ends in 0 once the timer wakes and the scheduler
/// redispatches it.
pub fn sys_sleep(k: &mut Kernel, ms: usize) -> (r: isize)
    requires
        kernel_wf(*old(k)),
        old(k).running is Some,
    ensures
        kernel_wf(*final(k)),
        r == 0,
        exists|mid_k: Kernel| #[trigger] sleep_rel(*old(k), mid_k, ms) && sched_rel(
            mid_k,
            *final(k),
        ),
{
    let (p, t) = k.running.unwrap();
    let now_ms = k.now_us / 1000;
    let wake = if ms > usize::MAX - now_ms {
        usize::MAX
    } else {
        now_ms + ms
    };
    k.procs[p].tasks[t].status = TaskStatus::Blocked;
    k.sleepers.push((wake, p, t));
    k.running = None;
    proof {
        let p0 = old(k).procs@[p as int];
        let p1 = k.procs@[p as int];
        assert(p1.tasks@ =~= p0.tasks@.update(
            t as int,
            (Thread { status: TaskStatus::Blocked, ..p0.tasks@[t as int] }),
        ));
        crate::sysproc::lemma_proc_wf_same_ledgers(p0, p1);
        assert forall|i: int| 0 <= i < k.sleepers@.len() implies entry_ok(
            k.procs@,
            ((#[trigger] k.sleepers@[i]).1, k.sleepers@[i].2),
        ) by {
            if i < old(k).sleepers@.len() {
                assert(entry_ok(old(k).procs@, (old(k).sleepers@[i].1, old(k).sleepers@[i].2)));
            }
        }
        crate::kernel::lemma_children_unchanged(old(k).procs@, k.procs@);
        assert(kernel_wf(*k));
        assert(sleep_rel(*old(k), *k, ms));
    }
    let ghost mid_k = *k;
    k.schedule_next();
    proof {
        assert(sleep_rel(*old(k), mid_k, ms) && sched_rel(mid_k, *k));
    }
    0
}

/// The sleeper entries whose wake time has passed, in order.
pub open spec fn sleepers_due(s: Seq<(usize, usize, usize)>, now_ms: int) -> Seq<
    (usize, usize, usize),
>
    decreases s.len(),
{
    if s.len() == 0 {
        s
    } else {
        let rest = sleepers_due(s.drop_last(), now_ms);
        if s.last().0 <= now_ms {
            rest.push(s.last())
        } else {
            rest
        }
    }
}

/// The sleeper entries still pending, in order.
pub open spec fn sleepers_pending(s: Seq<(usize, usize, usize)>, now_ms: int) -> Seq<
    (usize, usize, usize),
>
    decreases s.len(),
{
    if s.len() == 0 {
        s
    } else {
        let rest = sleepers_pending(s.drop_last(), now_ms);
        if s.last().0 <= now_ms {
            rest
        } else {
            rest.push(s.last())
        }
    }
}

proof fn lemma_sleepers_split_elems(s: Seq<(usize, usize, usize)>, now_ms: int)
    ensures
        forall|j: int|
            0 <= j < sleepers_due(s, now_ms).len() ==> s.contains(
                #[trigger] sleepers_due(s, now_ms)[j],
            ),
        forall|j: int|
            0 <= j < sleepers_pending(s, now_ms).len() ==> s.contains(
                #[trigger] sleepers_pending(s, now_ms)[j],
            ),
    decreases s.len(),
{
    if s.len() > 0 {
        lemma_sleepers_split_elems(s.drop_last(), now_ms);
        let due = sleepers_due(s, now_ms);
        let pen = sleepers_pending(s, now_ms);
        let due_r = sleepers_due(s.drop_last(), now_ms);
        let pen_r = sleepers_pending(s.drop_last(), now_ms);
        assert forall|j: int| 0 <= j < due.len() implies s.contains(#[trigger] due[j]) by {
            if s.last().0 <= now_ms && j == due.len() - 1 {
                assert(s[s.len() - 1] == s.last());
                assert(s.contains(s.last()));
            } else {
                let x = due_r[j];
                assert(s.drop_last().contains(x));
                let w = choose|w: int| 0 <= w < s.drop_last().len() && s.drop_last()[w] == x;
                assert(s[w] == x);
                assert(s.contains(x));
            }
        }
        assert forall|j: int| 0 <= j < pen.len() implies s.contains(#[trigger] pen[j]) by {
            if s.last().0 > now_ms && j == pen.len() - 1 {
                assert(s[s.len() - 1] == s.last());
                assert(s.contains(s.last()));
            } else {
                let x = pen_r[j];
                assert(s.drop_last().contains(x));
                let w = choose|w: int| 0 <= w < s.drop_last().len() && s.drop_last()[w] == x;
                assert(s[w] == x);
                assert(s.contains(x));
            }
        }
    }
}

/// Advances the monotonic clock by `delta_us` microseconds (saturating at
/// the top of its range) and wakes every sleeper whose deadline has
/// passed: each turns Ready with result 0 and joins the back of the ready
/// queue, in sleeper order. The timer interrupt path delivers exactly
/// this call.
pub fn advance_time(k: &mut Kernel, delta_us: usize)
    requires
        kernel_wf(*old(k)),
    ensures
        kernel_wf(*final(k)),
        final(k).now_us == (if old(k).now_us + delta_us > usize::MAX {
            usize::MAX as int
        } else {
            old(k).now_us + delta_us
        }),
        final(k).running == old(k).running,
        final(k).programs == old(k).programs,
        ({
            let now_ms = final(k).now_us / 1000;
            let due = sleepers_due(old(k).sleepers@, now_ms as int);
            &&& final(k).sleepers@ == sleepers_pending(old(k).sleepers@, now_ms as int)
            &&& final(k).ready@.len() == old(k).ready@.len() + due.len()
            &&& forall|i: int|
                0 <= i < old(k).ready@.len() ==> #[trigger] final(k).ready@[i] == old(k).ready@[i]
            &&& forall|j: int|
                0 <= j < due.len() ==> #[trigger] final(k).ready@[old(k).ready@.len() + j] == (
                due[j].1, due[j].2)
            &&& final(k).procs@.len() == old(k).procs@.len()
            &&& forall|q: int|
                0 <= q < old(k).procs@.len() ==> same_proc_except_tasks(
                    #[trigger] final(k).procs@[q],
                    old(k).procs@[q],
                ) && final(k).procs@[q].tasks@.len() == old(k).procs@[q].tasks@.len()
                    && crate::sysproc::same_ledgers(
                    final(k).procs@[q].tasks@,
                    old(k).procs@[q].tasks@,
                )
            &&& forall|j: int|
                0 <= j < due.len() ==> (#[trigger] final(k).procs@[due[j].1 as int].tasks@[due[
                    j
                ].2 as int]).status == TaskStatus::Ready && final(k).procs@[due[j].1 as int].tasks@[due[
                    j
                ].2 as int].ret_val == 0
        }),
{
    let new_now = if delta_us > usize::MAX - k.now_us {
        usize::MAX
    } else {
        k.now_us + delta_us
    };
    k.now_us = new_now;
    let now_ms = new_now / 1000;
    let mut due: Vec<(usize, usize, usize)> = Vec::new();
    let mut kept: Vec<(usize, usize, usize)> = Vec::new();
    let mut i: usize = 0;
    let n = k.sleepers.len();
    while i < n
        invariant
            i <= n,
            n == k.sleepers@.len(),
            due@ == sleepers_due(k.sleepers@.take(i as int), now_ms as int),
            kept@ == sleepers_pending(k.sleepers@.take(i as int), now_ms as int),
        decreases n - i,
    {
        let e = k.sleepers[i];
        proof {
            assert(k.sleepers@.take(i + 1).last() == k.sleepers@[i as int]);
            assert(k.sleepers@.take(i + 1).drop_last() =~= k.sleepers@.take(i as int));
        }
        if e.0 <= now_ms {
            due.push(e);
        } else {
            kept.push(e);
        }
        i = i + 1;
    }
    proof {
        assert(k.sleepers@.take(n as int) =~= k.sleepers@);
        lemma_sleepers_split_elems(k.sleepers@, now_ms as int);
    }
    k.sleepers = kept;
    let m = due.len();
    let ghost procs0 = old(k).procs@;
    let ghost due_v = due@;
    let mut j: usize = 0;
    while j < m
        invariant
            j <= m,
            m == due_v.len(),
            due@ == due_v,
            forall|jj: int| 0 <= jj < m ==> old(k).sleepers@.contains(#[trigger] due_v[jj]),
            kernel_wf(*old(k)),
            procs0 == old(k).procs@,
            due_v == sleepers_due(old(k).sleepers@, now_ms as int),
            k.sleepers@ == sleepers_pending(old(k).sleepers@, now_ms as int),
            now_ms == new_now / 1000,
            k.procs@.len() == procs0.len(),
            forall|q: int|
                0 <= q < procs0.len() ==> same_proc_except_tasks(
                    #[trigger] k.procs@[q],
                    procs0[q],
                ) && k.procs@[q].tasks@.len() == procs0[q].tasks@.len()
                    && crate::sysproc::same_ledgers(k.procs@[q].tasks@, procs0[q].tasks@)
                    && proc_wf(k.procs@[q]) && k.procs@[q].pid == q,
            forall|jj: int|
                0 <= jj < j ==> (#[trigger] k.procs@[due_v[jj].1 as int].tasks@[due_v[
                    jj
                ].2 as int]).status == TaskStatus::Ready && k.procs@[due_v[jj].1 as int].tasks@[due_v[
                    jj
                ].2 as int].ret_val == 0,
            k.ready@.len() == old(k).ready@.len() + j,
            forall|i2: int|
                0 <= i2 < old(k).ready@.len() ==> #[trigger] k.ready@[i2] == old(k).ready@[i2],
            forall|jj: int|
                0 <= jj < j ==> #[trigger] k.ready@[old(k).ready@.len() + jj] == (
                due_v[jj].1, due_v[jj].2),
            forall|i2: int| 0 <= i2 < k.ready@.len() ==> entry_ok(k.procs@, #[trigger] k.ready@[i2]),
            k.running == old(k).running,
            k.running is Some ==> entry_ok(k.procs@, k.running->Some_0),
            forall|i2: int|
                0 <= i2 < k.sleepers@.len() ==> entry_ok(
                    k.procs@,
                    ((#[trigger] k.sleepers@[i2]).1, k.sleepers@[i2].2),
                ),
            k.now_us == new_now,
            k.programs == old(k).programs,
        decreases m - j,
    {
        let e = due[j];
        proof {
            assert(old(k).sleepers@.contains(due_v[j as int]));
            let w = choose|w: int|
                0 <= w < old(k).sleepers@.len() && old(k).sleepers@[w] == due_v[j as int];
            assert(entry_ok(old(k).procs@, (old(k).sleepers@[w].1, old(k).sleepers@[w].2)));
            assert(old(k).sleepers@[w].1 == e.1 && old(k).sleepers@[w].2 == e.2);
            assert((e.1 as int) < k.procs@.len());
            assert(same_proc_except_tasks(k.procs@[e.1 as int], procs0[e.1 as int]));
            assert(!k.procs@[e.1 as int].zombie);
            assert(!k.procs@[e.1 as int].reaped);
            assert((e.2 as int) < k.procs@[e.1 as int].tasks@.len());
            assert(entry_ok(k.procs@, (e.1, e.2)));
        }
        let ghost pq = k.procs@[e.1 as int];
        k.procs[e.1].tasks[e.2].status = TaskStatus::Ready;
        k.procs[e.1].tasks[e.2].ret_val = 0;
        k.ready.push((e.1, e.2));
        proof {
            let p1 = k.procs@[e.1 as int];
            crate::sysproc::lemma_proc_wf_same_ledgers(pq, p1);
            assert forall|q: int| 0 <= q < procs0.len() implies same_proc_except_tasks(
                #[trigger] k.procs@[q],
                procs0[q],
            ) && k.procs@[q].tasks@.len() == procs0[q].tasks@.len()
                && crate::sysproc::same_ledgers(k.procs@[q].tasks@, procs0[q].tasks@) && proc_wf(
                k.procs@[q],
            ) && k.procs@[q].pid == q by {}
            assert forall|jj: int| 0 <= jj < j + 1 implies (#[trigger] k.procs@[due_v[
                jj
            ].1 as int].tasks@[due_v[jj].2 as int]).status == TaskStatus::Ready && k.procs@[due_v[
                jj
            ].1 as int].tasks@[due_v[jj].2 as int].ret_val == 0 by {
                if jj == j as int {
                } else {
                    if due_v[jj].1 == e.1 {
                        if due_v[jj].2 == e.2 {
                        } else {
                            assert(k.procs@[due_v[jj].1 as int].tasks@[due_v[jj].2 as int]
                                == pq.tasks@[due_v[jj].2 as int]);
                        }
                    }
                }
            }
        }
        j = j + 1;
    }
    proof {
        crate::kernel::lemma_children_unchanged(old(k).procs@, k.procs@);
        assert(kernel_wf(*k));
    }
}

} // verus!
