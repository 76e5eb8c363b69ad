use oskern::kernel::Kernel;
use oskern::sysproc::{sys_thread_create, sys_yield};
use oskern::syssync::{
    sys_condvar_create, sys_condvar_signal, sys_condvar_wait, sys_enable_deadlock_detect,
    sys_mutex_create, sys_mutex_lock, sys_mutex_unlock, sys_semaphore_create, sys_semaphore_down,
    sys_semaphore_up, DEADLOCK_RV,
};
use oskern::task::TaskStatus;

fn fresh() -> Kernel {
    Kernel::new(Vec::new())
}

#[test]
fn enable_deadlock_detect_accepts_only_zero_or_one() {
    let mut k = fresh();
    assert!(!k.procs[0].deadlock_detect);
    assert_eq!(sys_enable_deadlock_detect(&mut k, 1), 0);
    assert!(k.procs[0].deadlock_detect);
    assert_eq!(sys_enable_deadlock_detect(&mut k, 0), 0);
    assert!(!k.procs[0].deadlock_detect);
    assert_eq!(sys_enable_deadlock_detect(&mut k, 2), -1);
    assert!(!k.procs[0].deadlock_detect);
}

#[test]
fn create_assigns_successive_ids_and_grows_ledgers() {
    let mut k = fresh();
    assert_eq!(sys_mutex_create(&mut k, true), 0);
    assert_eq!(sys_mutex_create(&mut k, false), 1);
    assert_eq!(sys_semaphore_create(&mut k, 3), 0);
    assert_eq!(sys_condvar_create(&mut k), 0);
    assert_eq!(sys_condvar_create(&mut k), 1);
    let th = &k.procs[0].tasks[0];
    assert_eq!(th.mutex_own, vec![0i64, 0]);
    assert_eq!(th.mutex_require, vec![0i64, 0]);
    assert_eq!(th.sem_own, vec![0i64]);
    assert_eq!(k.procs[0].mutex_status, vec![1i64, 1]);
    assert_eq!(k.procs[0].sem_status, vec![3i64]);
}

#[test]
fn invalid_ids_are_rejected() {
    let mut k = fresh();
    assert_eq!(sys_mutex_lock(&mut k, 0), -1);
    assert_eq!(sys_mutex_unlock(&mut k, 3), -1);
    assert_eq!(sys_semaphore_down(&mut k, 0), -1);
    assert_eq!(sys_semaphore_up(&mut k, 1), -1);
    assert_eq!(sys_condvar_signal(&mut k, 0), -1);
    assert_eq!(sys_condvar_wait(&mut k, 0, 0), -1);
}

#[test]
fn deadlock_sentinel_value() {
    assert_eq!(DEADLOCK_RV, -0xDEAD);
    assert_eq!(DEADLOCK_RV, -57005);
}

#[test]
fn classic_ab_ba_deadlock_is_detected() {
    let mut k = fresh();
    assert_eq!(sys_enable_deadlock_detect(&mut k, 1), 0);
    assert_eq!(sys_mutex_create(&mut k, true), 0);
    assert_eq!(sys_mutex_create(&mut k, true), 1);
    assert_eq!(sys_thread_create(&mut k), 1);
    // thread 0 takes mutex 0
    assert_eq!(sys_mutex_lock(&mut k, 0), 0);
    assert_eq!(sys_yield(&mut k), 0);
    assert_eq!(k.running, Some((0, 1)));
    // thread 1 takes mutex 1, then requests mutex 0: safe, so it blocks
    assert_eq!(sys_mutex_lock(&mut k, 1), 0);
    sys_mutex_lock(&mut k, 0);
    assert_eq!(k.running, Some((0, 0)));
    let own0_before = k.procs[0].tasks[0].mutex_own.clone();
    let own1_before = k.procs[0].tasks[1].mutex_own.clone();
    // thread 0 now requests mutex 1: the cycle closes, detection refuses
    assert_eq!(sys_mutex_lock(&mut k, 1), DEADLOCK_RV);
    // neither thread's ownership state changed
    assert_eq!(k.procs[0].tasks[0].mutex_own, own0_before);
    assert_eq!(k.procs[0].tasks[1].mutex_own, own1_before);
    assert_eq!(k.procs[0].tasks[0].mutex_require, vec![0i64, 0]);
    // thread 0 is still running, not blocked
    assert_eq!(k.running, Some((0, 0)));
}

#[test]
fn ab_ba_without_detection_blocks_instead() {
    let mut k = fresh();
    assert_eq!(sys_mutex_create(&mut k, true), 0);
    assert_eq!(sys_mutex_create(&mut k, true), 1);
    assert_eq!(sys_thread_create(&mut k), 1);
    assert_eq!(sys_mutex_lock(&mut k, 0), 0);
    assert_eq!(sys_yield(&mut k), 0);
    assert_eq!(sys_mutex_lock(&mut k, 1), 0);
    sys_mutex_lock(&mut k, 0);
    assert_eq!(k.running, Some((0, 0)));
    // with detection off the second lock of the cycle simply blocks
    sys_mutex_lock(&mut k, 1);
    assert_eq!(k.procs[0].tasks[0].status, TaskStatus::Blocked);
    assert_eq!(k.procs[0].tasks[1].status, TaskStatus::Blocked);
    // nobody is runnable: the kernel is idle
    assert_eq!(k.running, None);
}

#[test]
fn safe_order_passes_detection() {
    let mut k = fresh();
    assert_eq!(sys_enable_deadlock_detect(&mut k, 1), 0);
    assert_eq!(sys_mutex_create(&mut k, true), 0);
    assert_eq!(sys_mutex_create(&mut k, true), 1);
    assert_eq!(sys_thread_create(&mut k), 1);
    assert_eq!(sys_thread_create(&mut k), 2);
    // three threads share the two mutexes in an order that can complete
    assert_eq!(sys_mutex_lock(&mut k, 0), 0);
    assert_eq!(sys_yield(&mut k), 0);
    assert_eq!(k.running, Some((0, 1)));
    assert_eq!(sys_mutex_lock(&mut k, 1), 0);
    assert_eq!(sys_yield(&mut k), 0);
    assert_eq!(k.running, Some((0, 2)));
    // thread 2 requests mutex 0: held, but the state stays safe
    let r = sys_mutex_lock(&mut k, 0);
    assert_ne!(r, DEADLOCK_RV);
    assert_eq!(k.procs[0].tasks[2].status, TaskStatus::Blocked);
    // thread 0 releases mutex 0: thread 2 is handed the mutex
    while k.running != Some((0, 0)) {
        assert_eq!(sys_yield(&mut k), 0);
    }
    assert_eq!(sys_mutex_unlock(&mut k, 0), 0);
    assert_eq!(k.procs[0].tasks[2].status, TaskStatus::Ready);
    assert_eq!(k.procs[0].tasks[2].mutex_own[0], 1);
    // thread 1 finishes too
    while k.running != Some((0, 1)) {
        assert_eq!(sys_yield(&mut k), 0);
    }
    assert_eq!(sys_mutex_unlock(&mut k, 1), 0);
}

fn run_counter_workers(blocking: bool) -> usize {
    let n_threads: usize = 3;
    let rounds: usize = 4;
    let mut k = fresh();
    assert_eq!(sys_mutex_create(&mut k, blocking), 0);
    assert_eq!(sys_thread_create(&mut k), 1);
    assert_eq!(sys_thread_create(&mut k), 2);
    // the state the mutex guards, and each thread's progress
    let mut counter: usize = 0;
    let mut done = [0usize; 3];
    for _ in 0..1000 {
        if done.iter().all(|&d| d == rounds) {
            break;
        }
        let Some((_, tid)) = k.running else {
            panic!("all threads stuck");
        };
        if done[tid] == rounds {
            assert_eq!(sys_yield(&mut k), 0);
        } else if k.procs[0].tasks[tid].mutex_own[0] == 1 {
            // inside the critical section: at most one thread can be here
            for other in 0..n_threads {
                if other != tid {
                    assert_eq!(k.procs[0].tasks[other].mutex_own[0], 0);
                }
            }
            counter += 1;
            done[tid] += 1;
            assert_eq!(sys_mutex_unlock(&mut k, 0), 0);
            assert_eq!(sys_yield(&mut k), 0);
        } else {
            // try to enter: either acquires at once or blocks until the
            // holder's unlock hands the mutex over
            sys_mutex_lock(&mut k, 0);
        }
    }
    assert!(done.iter().all(|&d| d == rounds));
    // no increment was lost
    assert_eq!(counter, n_threads * rounds);
    counter
}

#[test]
fn mutual_exclusion_counter_blocking_variant() {
    assert_eq!(run_counter_workers(true), 12);
}

#[test]
fn mutual_exclusion_counter_spin_variant() {
    assert_eq!(run_counter_workers(false), 12);
}

#[test]
fn semaphore_down_blocks_and_up_hands_over() {
    let mut k = fresh();
    assert_eq!(sys_semaphore_create(&mut k, 1), 0);
    assert_eq!(sys_thread_create(&mut k), 1);
    assert_eq!(sys_semaphore_down(&mut k, 0), 0);
    assert_eq!(k.procs[0].sem_status[0], 0);
    assert_eq!(sys_yield(&mut k), 0);
    assert_eq!(k.running, Some((0, 1)));
    // no unit left: thread 1 blocks
    sys_semaphore_down(&mut k, 0);
    assert_eq!(k.procs[0].tasks[1].status, TaskStatus::Blocked);
    assert_eq!(k.running, Some((0, 0)));
    // the unit passes straight to the waiter
    assert_eq!(sys_semaphore_up(&mut k, 0), 0);
    assert_eq!(k.procs[0].tasks[1].status, TaskStatus::Ready);
    assert_eq!(k.procs[0].tasks[1].sem_own[0], 1);
    assert_eq!(k.procs[0].sem_status[0], 0);
}

#[test]
fn semaphore_up_without_waiter_raises_count() {
    let mut k = fresh();
    assert_eq!(sys_semaphore_create(&mut k, 0), 0);
    assert_eq!(sys_semaphore_up(&mut k, 0), 0);
    assert_eq!(k.procs[0].sem_status[0], 1);
    // a later down takes it without blocking
    assert_eq!(sys_semaphore_down(&mut k, 0), 0);
    assert_eq!(k.running, Some((0, 0)));
}

#[test]
fn semaphore_deadlock_detected_when_enabled() {
    let mut k = fresh();
    assert_eq!(sys_enable_deadlock_detect(&mut k, 1), 0);
    assert_eq!(sys_semaphore_create(&mut k, 1), 0);
    assert_eq!(sys_semaphore_create(&mut k, 1), 1);
    assert_eq!(sys_thread_create(&mut k), 1);
    assert_eq!(sys_semaphore_down(&mut k, 0), 0);
    assert_eq!(sys_yield(&mut k), 0);
    assert_eq!(sys_semaphore_down(&mut k, 1), 0);
    sys_semaphore_down(&mut k, 0);
    assert_eq!(k.running, Some((0, 0)));
    assert_eq!(sys_semaphore_down(&mut k, 1), DEADLOCK_RV);
}

#[test]
fn condvar_signal_with_no_waiter_is_a_no_op() {
    let mut k = fresh();
    assert_eq!(sys_condvar_create(&mut k), 0);
    assert_eq!(sys_condvar_signal(&mut k, 0), 0);
    // no error, nothing blocked, nothing changed
    assert_eq!(k.running, Some((0, 0)));
    assert_eq!(k.ready.len(), 0);
    assert_eq!(k.procs[0].condvars[0].queue.len(), 0);
}

#[test]
fn condvar_wait_releases_and_reacquires_the_mutex() {
    let mut k = fresh();
    assert_eq!(sys_mutex_create(&mut k, true), 0);
    assert_eq!(sys_condvar_create(&mut k), 0);
    assert_eq!(sys_thread_create(&mut k), 1);
    // thread 0 holds the mutex and waits
    assert_eq!(sys_mutex_lock(&mut k, 0), 0);
    assert_eq!(k.procs[0].tasks[0].mutex_own[0], 1);
    sys_condvar_wait(&mut k, 0, 0);
    // the wait released the mutex and blocked the caller
    assert_eq!(k.procs[0].tasks[0].status, TaskStatus::Blocked);
    assert_eq!(k.procs[0].tasks[0].mutex_own[0], 0);
    assert_eq!(k.running, Some((0, 1)));
    // thread 1 can take the mutex meanwhile
    assert_eq!(sys_mutex_lock(&mut k, 0), 0);
    // a signal moves the waiter onto the mutex queue: still blocked
    assert_eq!(sys_condvar_signal(&mut k, 0), 0);
    assert_eq!(k.procs[0].tasks[0].status, TaskStatus::Blocked);
    // unlocking hands the mutex to the woken waiter
    assert_eq!(sys_mutex_unlock(&mut k, 0), 0);
    assert_eq!(k.procs[0].tasks[0].status, TaskStatus::Ready);
    assert_eq!(k.procs[0].tasks[0].mutex_own[0], 1);
    // once it runs again, the wait has returned with the mutex held
    assert_eq!(sys_yield(&mut k), 0);
    assert_eq!(k.running, Some((0, 0)));
}

#[test]
fn condvar_signal_grants_free_mutex_at_once() {
    let mut k = fresh();
    assert_eq!(sys_mutex_create(&mut k, true), 0);
    assert_eq!(sys_condvar_create(&mut k), 0);
    assert_eq!(sys_thread_create(&mut k), 1);
    assert_eq!(sys_mutex_lock(&mut k, 0), 0);
    sys_condvar_wait(&mut k, 0, 0);
    assert_eq!(k.running, Some((0, 1)));
    // the mutex is free when the signal comes: the waiter re-acquires at
    // once and is runnable, already holding it
    assert_eq!(sys_condvar_signal(&mut k, 0), 0);
    assert_eq!(k.procs[0].tasks[0].status, TaskStatus::Ready);
    assert_eq!(k.procs[0].tasks[0].mutex_own[0], 1);
    assert_eq!(k.procs[0].mutex_status[0], 0);
}
