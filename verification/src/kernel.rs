//! Process control blocks, the kernel's shared state, its well-formedness
//! invariant, and the stride scheduler.
//!
//! The kernel is one explicit value: every syscall takes it by mutable
//! reference and is specified as a transition on it. One thread at most is
//! running; the ready queue holds runnable threads across all processes and
//! the scheduler picks the ready thread with the least accumulated stride.
//!
//! Mutex, semaphore and condition-variable ids are never freed in this
//! core, so the per-process resource tables are dense and a new primitive
//! always takes the next id.
use vstd::prelude::*;

use crate::detect::{MAX_TASKS, RES_BOUND};
use crate::mem::AddrSpace;
use crate::task::{TaskStatus, Thread, BIG_STRIDE};

verus! {

/// Largest number of processes the kernel may hold.
pub const MAX_PROCS: usize = 0x1000_0000;

/// One mutex: its variant and the threads blocked on it, in arrival order.
pub struct MutexState {
    /// True for the suspend-and-wake variant, false for the spinning one.
    pub blocking: bool,
    /// Thread ids waiting to acquire, front first.
    pub queue: Vec<usize>,
}

/// One counting semaphore: the threads blocked on it, in arrival order.
/// Its available units stand in the owning process's `sem_status` entry.
pub struct SemState {
    /// Thread ids waiting for a unit, front first.
    pub queue: Vec<usize>,
}

/// One condition variable: each waiter with the mutex it must re-acquire.
pub struct CondvarState {
    /// Pairs of thread id and mutex id, front first.
    pub queue: Vec<(usize, usize)>,
}

/// A process control block.
pub struct Process {
    /// Process id; equals the process's slot in the kernel's table.
    pub pid: usize,
    /// The parent's pid, if any; a non-owning back-reference.
    pub parent: Option<usize>,
    /// Pids of the live and zombie children, in creation order.
    pub children: Vec<usize>,
    /// True once the process has exited.
    pub zombie: bool,
    /// Exit code, meaningful once `zombie` holds.
    pub exit_code: i32,
    /// True once the parent has reaped the zombie; the slot is then dead.
    pub reaped: bool,
    /// The process's address space.
    pub mem: AddrSpace,
    /// The process's threads; thread id is the slot index.
    pub tasks: Vec<Thread>,
    /// Mutexes by id.
    pub mutexes: Vec<MutexState>,
    /// Available units per mutex id: 1 when free, 0 when held.
    pub mutex_status: Vec<i64>,
    /// Semaphores by id.
    pub sems: Vec<SemState>,
    /// Available units per semaphore id.
    pub sem_status: Vec<i64>,
    /// Condition variables by id.
    pub condvars: Vec<CondvarState>,
    /// Whether deadlock detection guards `mutex_lock` and `semaphore_down`.
    pub deadlock_detect: bool,
}

/// The whole kernel state.
pub struct Kernel {
    /// Every process ever created; a slot is never removed, only marked.
    pub procs: Vec<Process>,
    /// The dispatched thread, as (pid, tid), or `None` when idle.
    pub running: Option<(usize, usize)>,
    /// Runnable threads as (pid, tid), front first.
    pub ready: Vec<(usize, usize)>,
    /// Sleeping threads as (wake time in ms, pid, tid).
    pub sleepers: Vec<(usize, usize, usize)>,
    /// Names of the executables the loader can serve.
    pub programs: Vec<Vec<u8>>,
    /// The monotonic clock, in microseconds.
    pub now_us: usize,
}

/// How many units of mutex `i` this thread holds, 0 outside its ledger.
pub open spec fn own_entry(th: Thread, i: int) -> int {
    if 0 <= i < th.mutex_own@.len() {
        th.mutex_own@[i] as int
    } else {
        0
    }
}

/// Units of mutex `i` held across all threads of a task list.
pub open spec fn own_sum(tasks: Seq<Thread>, i: int) -> int
    decreases tasks.len(),
{
    if tasks.len() == 0 {
        0
    } else {
        own_sum(tasks.drop_last(), i) + own_entry(tasks.last(), i)
    }
}

/// The thread's ledgers match the process's resource tables and every count
/// stays inside the machine bound.
pub open spec fn thread_wf(th: Thread, n_mutex: int, n_sem: int) -> bool {
    &&& th.mutex_own@.len() == n_mutex
    &&& th.mutex_require@.len() == n_mutex
    &&& th.sem_own@.len() == n_sem
    &&& th.sem_require@.len() == n_sem
    &&& th.priority >= 2
    &&& forall|i: int| 0 <= i < n_mutex ==> 0 <= #[trigger] th.mutex_own@[i] <= RES_BOUND
    &&& forall|i: int| 0 <= i < n_mutex ==> 0 <= #[trigger] th.mutex_require@[i] <= RES_BOUND
    &&& forall|i: int| 0 <= i < n_sem ==> -RES_BOUND <= #[trigger] th.sem_own@[i] <= RES_BOUND
    &&& forall|i: int| 0 <= i < n_sem ==> 0 <= #[trigger] th.sem_require@[i] <= RES_BOUND
}

/// Every wait-queue entry names a thread slot of the process; condvar
/// entries also name a mutex of the process.
pub open spec fn queues_wf(p: Process) -> bool {
    &&& forall|i: int, q: int|
        0 <= i < p.mutexes@.len() && 0 <= q < p.mutexes@[i].queue@.len()
            ==> (#[trigger] p.mutexes@[i].queue@[q]) < p.tasks@.len()
    &&& forall|i: int, q: int|
        0 <= i < p.sems@.len() && 0 <= q < p.sems@[i].queue@.len() ==> (#[trigger] p.sems@[
            i
        ].queue@[q]) < p.tasks@.len()
    &&& forall|i: int, q: int|
        0 <= i < p.condvars@.len() && 0 <= q < p.condvars@[i].queue@.len() ==> (#[trigger] p.condvars@[
            i
        ].queue@[q]).0 < p.tasks@.len() && p.condvars@[i].queue@[q].1 < p.mutexes@.len()
}

/// Each mutex's free unit plus the units its holder's ledger records is
/// exactly one: mutual exclusion as bookkeeping.
pub open spec fn mutex_conserved(p: Process) -> bool {
    forall|i: int|
        0 <= i < p.mutexes@.len() ==> p.mutex_status@[i] + #[trigger] own_sum(p.tasks@, i) == 1
}

/// Well-formedness of one process.
pub open spec fn proc_wf(p: Process) -> bool {
    &&& crate::mem::brk_wf(p.mem)
    &&& p.mutex_status@.len() == p.mutexes@.len()
    &&& p.sem_status@.len() == p.sems@.len()
    &&& p.tasks@.len() <= MAX_TASKS
    &&& forall|t: int|
        0 <= t < p.tasks@.len() ==> thread_wf(
            #[trigger] p.tasks@[t],
            p.mutexes@.len() as int,
            p.sems@.len() as int,
        )
    &&& forall|i: int| 0 <= i < p.mutex_status@.len() ==> 0 <= #[trigger] p.mutex_status@[i] <= 1
    &&& forall|i: int|
        0 <= i < p.sem_status@.len() ==> 0 <= #[trigger] p.sem_status@[i] <= RES_BOUND
    &&& !p.zombie ==> mutex_conserved(p)
    &&& !p.zombie ==> queues_wf(p)
}

/// The entry names a live process and one of its thread slots.
pub open spec fn entry_ok(procs: Seq<Process>, e: (usize, usize)) -> bool {
    &&& (e.0 as int) < procs.len()
    &&& !procs[e.0 as int].zombie
    &&& !procs[e.0 as int].reaped
    &&& (e.1 as int) < procs[e.0 as int].tasks@.len()
}

/// Well-formedness of the whole kernel. The invariant pins validity —
/// every scheduler or queue entry names a live process and one of its
/// thread slots — and the per-process accounting; it does not by itself
/// say that a thread is parked in at most one place at a time. That a
/// thread never ends up both running and queued is a consequence of the
/// transitions, which each syscall's contract pins exactly.
pub open spec fn kernel_wf(k: Kernel) -> bool {
    &&& 1 <= k.procs@.len() <= MAX_PROCS
    &&& forall|p: int|
        0 <= p < k.procs@.len() ==> proc_wf(#[trigger] k.procs@[p]) && k.procs@[p].pid == p
    &&& forall|p: int, c: int|
        0 <= p < k.procs@.len() && 0 <= c < k.procs@[p].children@.len() ==> (
        #[trigger] k.procs@[p].children@[c]) < k.procs@.len()
    &&& k.running is Some ==> entry_ok(k.procs@, k.running->Some_0)
    &&& forall|i: int| 0 <= i < k.ready@.len() ==> entry_ok(k.procs@, #[trigger] k.ready@[i])
    &&& forall|i: int|
        0 <= i < k.sleepers@.len() ==> entry_ok(
            k.procs@,
            ((#[trigger] k.sleepers@[i]).1, k.sleepers@[i].2),
        )
}

/// All fields of the two processes agree except possibly the task list.
pub open spec fn same_proc_except_tasks(a: Process, b: Process) -> bool {
    &&& a.pid == b.pid
    &&& a.parent == b.parent
    &&& a.children == b.children
    &&& a.zombie == b.zombie
    &&& a.exit_code == b.exit_code
    &&& a.reaped == b.reaped
    &&& a.mem == b.mem
    &&& a.mutexes == b.mutexes
    &&& a.mutex_status == b.mutex_status
    &&& a.sems == b.sems
    &&& a.sem_status == b.sem_status
    &&& a.condvars == b.condvars
    &&& a.deadlock_detect == b.deadlock_detect
}

/// The two process tables agree everywhere but slot `p`.
pub open spec fn procs_eq_except(a: Seq<Process>, b: Seq<Process>, p: int) -> bool {
    &&& a.len() == b.len()
    &&& forall|q: int| 0 <= q < a.len() && q != p ==> a[q] == b[q]
}

/// Exactly how one scheduling step relates the kernel before (idle, `a`)
/// to the kernel after (`b`): with an empty ready queue nothing changes;
/// otherwise the ready entry with the least pass is dispatched, removed
/// from the queue, marked running and charged one stride.
pub open spec fn sched_rel(a: Kernel, b: Kernel) -> bool {
    &&& a.running is None
    &&& (b.running is None) <==> a.ready@.len() == 0
    &&& (a.ready@.len() == 0 ==> b == a)
    &&& (a.ready@.len() > 0 ==> ({
        let j = sched_pick_idx(a.ready@, a.procs@);
        let e = a.ready@[j];
        let p0 = a.procs@[e.0 as int];
        let th0 = p0.tasks@[e.1 as int];
        &&& 0 <= j < a.ready@.len()
        &&& b.running == Some(e)
        &&& b.ready@ == a.ready@.remove(j)
        &&& procs_eq_except(b.procs@, a.procs@, e.0 as int)
        &&& same_proc_except_tasks(b.procs@[e.0 as int], p0)
        &&& b.procs@[e.0 as int].tasks@ == p0.tasks@.update(
            e.1 as int,
            (Thread {
                status: TaskStatus::Running,
                pass: spec_bump_pass(th0.pass, th0.priority),
                ..th0
            }),
        )
    }))
    &&& b.sleepers == a.sleepers
    &&& b.programs == a.programs
    &&& b.now_us == a.now_us
}

/// Sequences of ready entries with every entry of process `pid` removed.
pub open spec fn without_pid2(s: Seq<(usize, usize)>, pid: usize) -> Seq<(usize, usize)>
    decreases s.len(),
{
    if s.len() == 0 {
        s
    } else {
        let rest = without_pid2(s.drop_last(), pid);
        if s.last().0 == pid {
            rest
        } else {
            rest.push(s.last())
        }
    }
}

/// Sequences of sleeper entries with every entry of process `pid` removed.
pub open spec fn without_pid3(s: Seq<(usize, usize, usize)>, pid: usize) -> Seq<
    (usize, usize, usize),
>
    decreases s.len(),
{
    if s.len() == 0 {
        s
    } else {
        let rest = without_pid3(s.drop_last(), pid);
        if s.last().1 == pid {
            rest
        } else {
            rest.push(s.last())
        }
    }
}

/// Every kept ready entry stood in the original queue and is not of `pid`.
pub proof fn lemma_without_pid2_elems(s: Seq<(usize, usize)>, pid: usize)
    ensures
        forall|j: int|
            0 <= j < without_pid2(s, pid).len() ==> s.contains(#[trigger] without_pid2(s, pid)[j])
                && without_pid2(s, pid)[j].0 != pid,
    decreases s.len(),
{
    if s.len() > 0 {
        lemma_without_pid2_elems(s.drop_last(), pid);
        let res = without_pid2(s, pid);
        let rest = without_pid2(s.drop_last(), pid);
        assert forall|j: int| 0 <= j < res.len() implies s.contains(#[trigger] res[j]) && res[j].0
            != pid by {
            if s.last().0 != pid && j == res.len() - 1 {
                assert(res[j] == s.last());
                assert(s[s.len() - 1] == s.last());
                assert(s.contains(s.last()));
            } else {
                assert(res[j] == rest[j]);
                let x = rest[j];
                assert(s.drop_last().contains(x));
                let w = choose|w: int| 0 <= w < s.drop_last().len() && s.drop_last()[w] == x;
                assert(s[w] == x);
                assert(s.contains(x));
            }
        }
    }
}

/// Every kept sleeper entry stood in the original list and is not of `pid`.
pub proof fn lemma_without_pid3_elems(s: Seq<(usize, usize, usize)>, pid: usize)
    ensures
        forall|j: int|
            0 <= j < without_pid3(s, pid).len() ==> s.contains(#[trigger] without_pid3(s, pid)[j])
                && without_pid3(s, pid)[j].1 != pid,
    decreases s.len(),
{
    if s.len() > 0 {
        lemma_without_pid3_elems(s.drop_last(), pid);
        let res = without_pid3(s, pid);
        let rest = without_pid3(s.drop_last(), pid);
        assert forall|j: int| 0 <= j < res.len() implies s.contains(#[trigger] res[j]) && res[j].1
            != pid by {
            if s.last().1 != pid && j == res.len() - 1 {
                assert(res[j] == s.last());
                assert(s[s.len() - 1] == s.last());
                assert(s.contains(s.last()));
            } else {
                assert(res[j] == rest[j]);
                let x = rest[j];
                assert(s.drop_last().contains(x));
                let w = choose|w: int| 0 <= w < s.drop_last().len() && s.drop_last()[w] == x;
                assert(s[w] == x);
                assert(s.contains(x));
            }
        }
    }
}

/// Removes every ready entry of process `pid`.
pub fn purge_ready_of(v: &mut Vec<(usize, usize)>, pid: usize)
    ensures
        final(v)@ == without_pid2(old(v)@, pid),
{
    let mut kept: Vec<(usize, usize)> = Vec::new();
    let mut i: usize = 0;
    while i < v.len()
        invariant
            i <= v@.len(),
            kept@ == without_pid2(v@.take(i as int), pid),
        decreases v@.len() - i,
    {
        let e = v[i];
        proof {
            assert(v@.take(i + 1).last() == v@[i as int]);
            assert(v@.take(i + 1).drop_last() =~= v@.take(i as int));
        }
        if e.0 != pid {
            kept.push(e);
        }
        i = i + 1;
    }
    proof {
        assert(v@.take(v@.len() as int) =~= v@);
    }
    *v = kept;
}

/// Removes every sleeper entry of process `pid`.
pub fn purge_sleepers_of(v: &mut Vec<(usize, usize, usize)>, pid: usize)
    ensures
        final(v)@ == without_pid3(old(v)@, pid),
{
    let mut kept: Vec<(usize, usize, usize)> = Vec::new();
    let mut i: usize = 0;
    while i < v.len()
        invariant
            i <= v@.len(),
            kept@ == without_pid3(v@.take(i as int), pid),
        decreases v@.len() - i,
    {
        let e = v[i];
        proof {
            assert(v@.take(i + 1).last() == v@[i as int]);
            assert(v@.take(i + 1).drop_last() =~= v@.take(i as int));
        }
        if e.1 != pid {
            kept.push(e);
        }
        i = i + 1;
    }
    proof {
        assert(v@.take(v@.len() as int) =~= v@);
    }
    *v = kept;
}

/// A dispatched thread's stride step: its pass grows by
/// `BIG_STRIDE / priority`, saturating at the top of its range.
pub open spec fn spec_bump_pass(pass: u64, prio: u64) -> u64 {
    if prio == 0 {
        pass
    } else if pass + BIG_STRIDE as u64 / prio > u64::MAX {
        u64::MAX
    } else {
        (pass + BIG_STRIDE as u64 / prio) as u64
    }
}

/// Accumulated stride of a ready entry; 0 for an entry out of range.
pub open spec fn pass_of(procs: Seq<Process>, e: (usize, usize)) -> int {
    if (e.0 as int) < procs.len() && (e.1 as int) < procs[e.0 as int].tasks@.len() {
        procs[e.0 as int].tasks@[e.1 as int].pass as int
    } else {
        0
    }
}

/// Index of the ready entry with the least pass; the earliest wins a tie.
pub open spec fn sched_pick_idx(ready: Seq<(usize, usize)>, procs: Seq<Process>) -> int
    decreases ready.len(),
{
    if ready.len() <= 1 {
        0
    } else {
        let rest = sched_pick_idx(ready.drop_last(), procs);
        if pass_of(procs, ready.last()) < pass_of(procs, ready[rest]) {
            ready.len() - 1
        } else {
            rest
        }
    }
}

proof fn lemma_pick_in_range(ready: Seq<(usize, usize)>, procs: Seq<Process>)
    requires
        ready.len() > 0,
    ensures
        0 <= sched_pick_idx(ready, procs) < ready.len(),
    decreases ready.len(),
{
    if ready.len() > 1 {
        lemma_pick_in_range(ready.drop_last(), procs);
    }
}

/// Replacing one thread moves the held-unit sum by the difference of the
/// old and new entries.
pub proof fn lemma_own_sum_update(tasks: Seq<Thread>, t: int, th: Thread, i: int)
    requires
        0 <= t < tasks.len(),
    ensures
        own_sum(tasks.update(t, th), i) == own_sum(tasks, i) - own_entry(tasks[t], i) + own_entry(
            th,
            i,
        ),
    decreases tasks.len(),
{
    let upd = tasks.update(t, th);
    if t == tasks.len() - 1 {
        assert(upd.drop_last() =~= tasks.drop_last());
        assert(upd.last() == th);
    } else {
        assert(upd.drop_last() =~= tasks.drop_last().update(t, th));
        assert(upd.last() == tasks.last());
        lemma_own_sum_update(tasks.drop_last(), t, th, i);
    }
}

/// Appending a thread adds its entry to the held-unit sum.
pub proof fn lemma_own_sum_push(tasks: Seq<Thread>, th: Thread, i: int)
    ensures
        own_sum(tasks.push(th), i) == own_sum(tasks, i) + own_entry(th, i),
{
    assert(tasks.push(th).drop_last() =~= tasks);
}

/// With every entry nonnegative, the sum is nonnegative.
pub proof fn lemma_own_sum_nonneg(tasks: Seq<Thread>, i: int)
    requires
        forall|t: int| 0 <= t < tasks.len() ==> own_entry(#[trigger] tasks[t], i) >= 0,
    ensures
        own_sum(tasks, i) >= 0,
    decreases tasks.len(),
{
    if tasks.len() > 0 {
        assert(tasks.last() == tasks[tasks.len() - 1]);
        assert forall|t: int| 0 <= t < tasks.drop_last().len() implies own_entry(
            #[trigger] tasks.drop_last()[t],
            i,
        ) >= 0 by {
            assert(tasks.drop_last()[t] == tasks[t]);
        }
        lemma_own_sum_nonneg(tasks.drop_last(), i);
    }
}

/// With every entry nonnegative, one thread's entry is at most the sum.
pub proof fn lemma_own_entry_le_sum(tasks: Seq<Thread>, t: int, i: int)
    requires
        0 <= t < tasks.len(),
        forall|u: int| 0 <= u < tasks.len() ==> own_entry(#[trigger] tasks[u], i) >= 0,
    ensures
        own_entry(tasks[t], i) <= own_sum(tasks, i),
    decreases tasks.len(),
{
    assert(tasks.last() == tasks[tasks.len() - 1]);
    assert forall|u: int| 0 <= u < tasks.drop_last().len() implies own_entry(
        #[trigger] tasks.drop_last()[u],
        i,
    ) >= 0 by {
        assert(tasks.drop_last()[u] == tasks[u]);
    }
    if t == tasks.len() - 1 {
        lemma_own_sum_nonneg(tasks.drop_last(), i);
    } else {
        lemma_own_entry_le_sum(tasks.drop_last(), t, i);
    }
}

/// With every entry zero, the sum is zero.
pub proof fn lemma_own_sum_zero(tasks: Seq<Thread>, i: int)
    requires
        forall|t: int| 0 <= t < tasks.len() ==> own_entry(#[trigger] tasks[t], i) == 0,
    ensures
        own_sum(tasks, i) == 0,
    decreases tasks.len(),
{
    if tasks.len() > 0 {
        assert(tasks.last() == tasks[tasks.len() - 1]);
        assert forall|t: int| 0 <= t < tasks.drop_last().len() implies own_entry(
            #[trigger] tasks.drop_last()[t],
            i,
        ) == 0 by {
            assert(tasks.drop_last()[t] == tasks[t]);
        }
        lemma_own_sum_zero(tasks.drop_last(), i);
    }
}

/// Sums agree when the two task lists agree entrywise on mutex `i`.
pub proof fn lemma_own_sum_congruent(a: Seq<Thread>, b: Seq<Thread>, i: int)
    requires
        a.len() == b.len(),
        forall|t: int| 0 <= t < a.len() ==> own_entry(#[trigger] a[t], i) == own_entry(b[t], i),
    ensures
        own_sum(a, i) == own_sum(b, i),
    decreases a.len(),
{
    if a.len() > 0 {
        assert(a.last() == a[a.len() - 1] && b.last() == b[b.len() - 1]);
        assert forall|t: int| 0 <= t < a.drop_last().len() implies own_entry(
            #[trigger] a.drop_last()[t],
            i,
        ) == own_entry(b.drop_last()[t], i) by {
            assert(a.drop_last()[t] == a[t] && b.drop_last()[t] == b[t]);
        }
        lemma_own_sum_congruent(a.drop_last(), b.drop_last(), i);
    }
}


/// Children stay valid when no process's children list changes.
pub proof fn lemma_children_unchanged(a: Seq<Process>, b: Seq<Process>)
    requires
        b.len() == a.len(),
        forall|q: int| 0 <= q < a.len() ==> (#[trigger] b[q]).children == a[q].children,
        forall|p: int, c: int|
            0 <= p < a.len() && 0 <= c < a[p].children@.len() ==> (#[trigger] a[p].children@[c])
                < a.len(),
    ensures
        forall|p: int, c: int|
            0 <= p < b.len() && 0 <= c < b[p].children@.len() ==> (#[trigger] b[p].children@[c])
                < b.len(),
{
    assert forall|p: int, c: int|
        0 <= p < b.len() && 0 <= c < b[p].children@.len() implies (#[trigger] b[p].children@[c])
        < b.len() by {
        assert(b[p].children == a[p].children);
        assert(a[p].children@[c] < a.len());
    }
}


/// With every entry nonnegative, two distinct threads' entries together
/// are at most the sum.
pub proof fn lemma_own_sum_pair(tasks: Seq<Thread>, t: int, u: int, i: int)
    requires
        0 <= t < tasks.len(),
        0 <= u < tasks.len(),
        t != u,
        forall|w: int| 0 <= w < tasks.len() ==> own_entry(#[trigger] tasks[w], i) >= 0,
    ensures
        own_entry(tasks[t], i) + own_entry(tasks[u], i) <= own_sum(tasks, i),
    decreases tasks.len(),
{
    assert(tasks.last() == tasks[tasks.len() - 1]);
    assert forall|w: int| 0 <= w < tasks.drop_last().len() implies own_entry(
        #[trigger] tasks.drop_last()[w],
        i,
    ) >= 0 by {
        assert(tasks.drop_last()[w] == tasks[w]);
    }
    if t == tasks.len() - 1 {
        lemma_own_entry_le_sum(tasks.drop_last(), u, i);
    } else if u == tasks.len() - 1 {
        lemma_own_entry_le_sum(tasks.drop_last(), t, i);
    } else {
        lemma_own_sum_pair(tasks.drop_last(), t, u, i);
    }
}

/// Law: mutual exclusion. In a live, well-formed process, at most one
/// thread holds a given mutex: two threads whose ledgers both record a
/// held unit of the same mutex are the same thread. Together with the
/// conservation invariant this is why concurrent lock/unlock rounds
/// cannot lose updates to the state a mutex guards.
pub proof fn lemma_mutex_exclusive(p: Process, i: int, t: int, u: int)
    requires
        proc_wf(p),
        !p.zombie,
        0 <= i < p.mutexes@.len(),
        0 <= t < p.tasks@.len(),
        0 <= u < p.tasks@.len(),
        p.tasks@[t].mutex_own@[i] >= 1,
        p.tasks@[u].mutex_own@[i] >= 1,
    ensures
        t == u,
{
    if t != u {
        assert forall|w: int| 0 <= w < p.tasks@.len() implies own_entry(
            #[trigger] p.tasks@[w],
            i,
        ) >= 0 by {
            assert(thread_wf(p.tasks@[w], p.mutexes@.len() as int, p.sems@.len() as int));
        }
        lemma_own_sum_pair(p.tasks@, t, u, i);
        assert(p.mutex_status@[i] + own_sum(p.tasks@, i) == 1);
        assert(p.mutex_status@[i] >= 0);
        assert(false);
    }
}


/// Law: a held mutex has no free unit. In a live, well-formed process, a
/// thread whose ledger records a held unit of a mutex leaves that mutex's
/// available count at zero, so a second `lock` can only block or be
/// refused, never acquire.
pub proof fn lemma_held_mutex_unavailable(p: Process, i: int, t: int)
    requires
        proc_wf(p),
        !p.zombie,
        0 <= i < p.mutexes@.len(),
        0 <= t < p.tasks@.len(),
        p.tasks@[t].mutex_own@[i] >= 1,
    ensures
        p.mutex_status@[i] == 0,
{
    assert forall|w: int| 0 <= w < p.tasks@.len() implies own_entry(
        #[trigger] p.tasks@[w],
        i,
    ) >= 0 by {
        assert(thread_wf(p.tasks@[w], p.mutexes@.len() as int, p.sems@.len() as int));
    }
    lemma_own_entry_le_sum(p.tasks@, t, i);
    assert(p.mutex_status@[i] + own_sum(p.tasks@, i) == 1);
}

impl Kernel {
    /// A fresh kernel: one init process (pid 0) with one running thread, an
    /// empty ready queue, and the given program table.
    pub fn new(programs: Vec<Vec<u8>>) -> (k: Kernel)
        ensures
            kernel_wf(k),
            k.procs@.len() == 1,
            k.running == Some((0usize, 0usize)),
            k.ready@.len() == 0,
            k.sleepers@.len() == 0,
            k.programs == programs,
            k.now_us == 0,
            k.procs@[0].tasks@.len() == 1,
            k.procs@[0].children@.len() == 0,
            !k.procs@[0].zombie,
            k.procs@[0].mutexes@.len() == 0,
            k.procs@[0].sems@.len() == 0,
            k.procs@[0].condvars@.len() == 0,
            !k.procs@[0].deadlock_detect,
    {
        let mut th = Thread::new(0, 0, 0);
        th.status = TaskStatus::Running;
        let mut tasks: Vec<Thread> = Vec::new();
        tasks.push(th);
        let init = Process {
            pid: 0,
            parent: None,
            children: Vec::new(),
            zombie: false,
            exit_code: 0,
            reaped: false,
            mem: AddrSpace::new(0),
            tasks,
            mutexes: Vec::new(),
            mutex_status: Vec::new(),
            sems: Vec::new(),
            sem_status: Vec::new(),
            condvars: Vec::new(),
            deadlock_detect: false,
        };
        let mut procs: Vec<Process> = Vec::new();
        procs.push(init);
        Kernel {
            procs,
            running: Some((0, 0)),
            ready: Vec::new(),
            sleepers: Vec::new(),
            programs,
            now_us: 0,
        }
    }

    /// Dispatches the ready thread with the least pass, removing it from
    /// the ready queue, marking it running and charging it one stride; with
    /// an empty ready queue the kernel goes idle and nothing changes.
    pub fn schedule_next(&mut self)
        requires
            kernel_wf(*old(self)),
            old(self).running is None,
        ensures
            kernel_wf(*final(self)),
            sched_rel(*old(self), *final(self)),
    {
        let n = self.ready.len();
        if n == 0 {
            return ;
        }
        let mut best: usize = 0;
        let mut idx: usize = 1;
        while idx < n
            invariant
                kernel_wf(*self),
                *self == *old(self),
                n == self.ready@.len(),
                1 <= idx <= n,
                0 <= best < idx,
                best as int == sched_pick_idx(self.ready@.take(idx as int), self.procs@),
            decreases n - idx,
        {
            proof {
                assert(self.ready@.take(idx as int + 1).drop_last() =~= self.ready@.take(
                    idx as int,
                ));
                assert(self.ready@.take(idx as int + 1).last() == self.ready@[idx as int]);
                assert(entry_ok(self.procs@, self.ready@[idx as int]));
                assert(entry_ok(self.procs@, self.ready@[best as int]));
            }
            let ec = self.ready[idx];
            let eb = self.ready[best];
            let pass_c = self.procs[ec.0].tasks[ec.1].pass;
            let pass_b = self.procs[eb.0].tasks[eb.1].pass;
            if pass_c < pass_b {
                best = idx;
            }
            idx = idx + 1;
        }
        proof {
            assert(self.ready@.take(n as int) =~= self.ready@);
            lemma_pick_in_range(self.ready@, self.procs@);
        }
        let e = self.ready.remove(best);
        let (p, t) = e;
        proof {
            assert(entry_ok(old(self).procs@, e));
        }
        let prio = self.procs[p].tasks[t].priority;
        let pass = self.procs[p].tasks[t].pass;
        let stride = BIG_STRIDE / prio;
        let new_pass = if pass > u64::MAX - stride {
            u64::MAX
        } else {
            pass + stride
        };
        self.procs[p].tasks[t].pass = new_pass;
        self.procs[p].tasks[t].status = TaskStatus::Running;
        self.running = Some((p, t));
        proof {
            let e0 = old(self).ready@[sched_pick_idx(old(self).ready@, old(self).procs@)];
            let p0 = old(self).procs@[e0.0 as int];
            let th0 = p0.tasks@[e0.1 as int];
            let th2 = (Thread {
                status: TaskStatus::Running,
                pass: spec_bump_pass(th0.pass, th0.priority),
                ..th0
            });
            assert(self.procs@[p as int].tasks@ =~= p0.tasks@.update(t as int, th2));
            assert(same_proc_except_tasks(self.procs@[p as int], p0));
            assert forall|q: int|
                0 <= q < self.procs@.len() implies proc_wf(#[trigger] self.procs@[q])
                && self.procs@[q].pid == q by {
                if q == p as int {
                    let pr = self.procs@[q];
                    assert forall|tt: int| 0 <= tt < pr.tasks@.len() implies thread_wf(
                        #[trigger] pr.tasks@[tt],
                        pr.mutexes@.len() as int,
                        pr.sems@.len() as int,
                    ) by {
                        assert(thread_wf(
                            p0.tasks@[tt],
                            p0.mutexes@.len() as int,
                            p0.sems@.len() as int,
                        ));
                    }
                    if !pr.zombie {
                        assert forall|i: int| 0 <= i < pr.mutexes@.len() implies pr.mutex_status@[i]
                            + #[trigger] own_sum(pr.tasks@, i) == 1 by {
                            lemma_own_sum_update(p0.tasks@, t as int, th2, i);
                        }
                    }
                }
            }
            assert forall|i: int| 0 <= i < self.ready@.len() implies entry_ok(
                self.procs@,
                #[trigger] self.ready@[i],
            ) by {
                assert(self.ready@[i] == old(self).ready@.remove(
                    sched_pick_idx(old(self).ready@, old(self).procs@),
                )[i]);
            }
        }
    }
}

} // verus!
