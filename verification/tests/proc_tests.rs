use oskern::kernel::Kernel;
use oskern::sysproc::{
    note_syscall, sys_exec, sys_exit, sys_fork, sys_get_time, sys_getpid, sys_mmap,
    sys_set_priority, sys_spawn, sys_task_info, sys_thread_create, sys_waitpid, sys_yield,
};
use oskern::syssync::{
    advance_time, sys_enable_deadlock_detect, sys_mutex_create, sys_mutex_lock, sys_mutex_unlock,
    sys_semaphore_create, sys_semaphore_down, sys_sleep,
};
use oskern::task::{TaskInfo, TaskStatus, TimeVal, MAX_SYSCALL_NUM};

fn fresh() -> Kernel {
    Kernel::new(Vec::new())
}

#[test]
fn getpid_of_init() {
    let k = fresh();
    assert_eq!(sys_getpid(&k), 0);
}

#[test]
fn fork_returns_child_pid_and_child_sees_zero() {
    let mut k = fresh();
    assert_eq!(sys_mmap(&mut k, 4096, 4096, 3), 0);
    let pid = sys_fork(&mut k);
    assert_eq!(pid, 1);
    // the child's memory is a copy of the parent's at the fork point
    assert_eq!(k.procs[1].mem.pages, k.procs[0].mem.pages);
    // the only observable difference is the return value: the child's
    // return-value slot is forced to 0
    assert_eq!(k.procs[1].tasks[0].ret_val, 0);
    assert_eq!(k.procs[1].parent, Some(0));
    assert_eq!(k.procs[0].children, vec![1usize]);
    // the child is runnable at once
    assert_eq!(k.ready, vec![(1usize, 0usize)]);
}

#[test]
fn waitpid_reaps_one_zombie_child() {
    let mut k = fresh();
    assert_eq!(sys_fork(&mut k), 1);
    let mut code: i32 = -1;
    // the child has not exited yet
    assert_eq!(sys_waitpid(&mut k, -1, &mut code), -2);
    assert_eq!(sys_waitpid(&mut k, 1, &mut code), -2);
    // let the child run; it exits with code 7
    assert_eq!(sys_yield(&mut k), 0);
    assert_eq!(k.running, Some((1, 0)));
    sys_exit(&mut k, 7);
    assert_eq!(k.running, Some((0, 0)));
    assert_eq!(sys_waitpid(&mut k, -1, &mut code), 1);
    assert_eq!(code, 7);
    assert_eq!(k.procs[0].children.len(), 0);
    assert!(k.procs[1].reaped);
    // no child is left at all
    assert_eq!(sys_waitpid(&mut k, -1, &mut code), -1);
}

#[test]
fn waitpid_with_no_children_returns_minus_one() {
    let mut k = fresh();
    let mut code: i32 = 0;
    assert_eq!(sys_waitpid(&mut k, -1, &mut code), -1);
    assert_eq!(sys_waitpid(&mut k, 5, &mut code), -1);
}

#[test]
fn waitpid_filters_by_pid() {
    let mut k = fresh();
    assert_eq!(sys_fork(&mut k), 1);
    assert_eq!(sys_fork(&mut k), 2);
    // run child 2 to completion, child 1 keeps running
    assert_eq!(sys_yield(&mut k), 0);
    assert_eq!(k.running, Some((1, 0)));
    assert_eq!(sys_yield(&mut k), 0);
    assert_eq!(k.running, Some((2, 0)));
    sys_exit(&mut k, 3);
    // back in some thread; drive until the parent runs again
    while k.running != Some((0, 0)) {
        assert_eq!(sys_yield(&mut k), 0);
    }
    let mut code: i32 = 0;
    // child 1 exists but has not exited
    assert_eq!(sys_waitpid(&mut k, 1, &mut code), -2);
    // a pid that is no child at all
    assert_eq!(sys_waitpid(&mut k, 9, &mut code), -1);
    // child 2 is a zombie
    assert_eq!(sys_waitpid(&mut k, 2, &mut code), 2);
    assert_eq!(code, 3);
    assert_eq!(k.procs[0].children, vec![1usize]);
}

#[test]
fn exit_reparents_children_to_init() {
    let mut k = fresh();
    assert_eq!(sys_fork(&mut k), 1);
    assert_eq!(sys_yield(&mut k), 0);
    assert_eq!(k.running, Some((1, 0)));
    // the child forks a grandchild, then exits
    assert_eq!(sys_fork(&mut k), 2);
    sys_exit(&mut k, 0);
    // the grandchild now belongs to init
    assert_eq!(k.procs[2].parent, Some(0));
    assert!(k.procs[0].children.contains(&2));
    assert!(k.procs[1].zombie);
    assert_eq!(k.procs[1].children.len(), 0);
}

#[test]
fn exec_replaces_image_or_fails() {
    let mut k = Kernel::new(vec![b"shell".to_vec()]);
    assert_eq!(sys_mmap(&mut k, 4096, 4096, 3), 0);
    assert_eq!(sys_thread_create(&mut k), 1);
    // unknown executable: failure, nothing changes
    assert_eq!(sys_exec(&mut k, &b"nosuch".to_vec()), -1);
    assert_eq!(k.procs[0].tasks.len(), 2);
    assert_eq!(k.procs[0].mem.pages.len(), 1);
    // known executable: fresh image, thread count resets to one
    assert_eq!(sys_exec(&mut k, &b"shell".to_vec()), 0);
    assert_eq!(k.procs[0].tasks.len(), 1);
    assert_eq!(k.procs[0].mem.pages.len(), 0);
    assert_eq!(k.running, Some((0, 0)));
    // the stale second thread is gone from the ready queue
    assert!(!k.ready.contains(&(0usize, 1usize)));
}

#[test]
fn spawn_makes_fresh_child() {
    let mut k = Kernel::new(vec![b"shell".to_vec()]);
    assert_eq!(sys_mmap(&mut k, 4096, 4096, 3), 0);
    assert_eq!(sys_spawn(&mut k, &b"nosuch".to_vec()), -1);
    let pid = sys_spawn(&mut k, &b"shell".to_vec());
    assert_eq!(pid, 1);
    // not a copy of the caller: the child's address space starts fresh
    assert_eq!(k.procs[1].mem.pages.len(), 0);
    assert_eq!(k.procs[1].parent, Some(0));
    assert_eq!(k.ready, vec![(1usize, 0usize)]);
}

#[test]
fn set_priority_rejects_low_values() {
    let mut k = fresh();
    let before = k.procs[0].tasks[0].priority;
    assert_eq!(sys_set_priority(&mut k, 1), -1);
    assert_eq!(sys_set_priority(&mut k, 0), -1);
    assert_eq!(sys_set_priority(&mut k, -3), -1);
    assert_eq!(k.procs[0].tasks[0].priority, before);
    assert_eq!(sys_set_priority(&mut k, 5), 5);
    assert_eq!(k.procs[0].tasks[0].priority, 5);
}

#[test]
fn stride_scheduling_favors_higher_priority() {
    let mut k = fresh();
    assert_eq!(sys_thread_create(&mut k), 1);
    assert_eq!(sys_thread_create(&mut k), 2);
    // the main thread steps aside with a tiny weight; thread 1 gets a
    // small weight, thread 2 a large one
    assert_eq!(sys_set_priority(&mut k, 2), 2);
    let mut runs = [0usize; 3];
    for _ in 0..120 {
        let (_, tid) = k.running.unwrap();
        if tid == 1 && k.procs[0].tasks[1].priority != 2 {
            assert_eq!(sys_set_priority(&mut k, 2), 2);
        }
        if tid == 2 && k.procs[0].tasks[2].priority != 16 {
            assert_eq!(sys_set_priority(&mut k, 16), 16);
        }
        runs[tid] += 1;
        assert_eq!(sys_yield(&mut k), 0);
    }
    // the lower priority number means being scheduled less often
    assert!(runs[2] > runs[1]);
}

#[test]
fn get_time_splits_seconds_and_microseconds() {
    let mut k = fresh();
    advance_time(&mut k, 3_456_789);
    let mut tv = TimeVal { sec: 0, usec: 0 };
    assert_eq!(sys_get_time(&k, &mut tv, 0), 0);
    assert_eq!(tv.sec, 3);
    assert_eq!(tv.usec, 456_789);
}

#[test]
fn task_info_reports_the_calling_thread() {
    let mut k = fresh();
    let mut ti = TaskInfo { status: TaskStatus::Ready, syscall_times: Vec::new(), time: 1 };
    assert_eq!(sys_task_info(&k, &mut ti), 0);
    assert_eq!(ti.status, TaskStatus::Running);
    assert_eq!(ti.syscall_times.len(), MAX_SYSCALL_NUM);
    assert!(ti.syscall_times.iter().all(|&c| c == 0));
    assert_eq!(ti.time, 0);
}

#[test]
fn sleep_blocks_until_the_deadline() {
    let mut k = fresh();
    assert_eq!(sys_thread_create(&mut k), 1);
    assert_eq!(sys_sleep(&mut k, 5), 0);
    // the sleeper is off the ready queue, the other thread runs
    assert_eq!(k.procs[0].tasks[0].status, TaskStatus::Blocked);
    assert_eq!(k.running, Some((0, 1)));
    // too early: still asleep
    advance_time(&mut k, 4_000);
    assert_eq!(k.procs[0].tasks[0].status, TaskStatus::Blocked);
    // deadline reached: the sleeper wakes with result 0
    advance_time(&mut k, 1_000);
    assert_eq!(k.procs[0].tasks[0].status, TaskStatus::Ready);
    assert_eq!(k.procs[0].tasks[0].ret_val, 0);
    assert!(k.ready.contains(&(0usize, 0usize)));
}

#[test]
fn yield_rotates_ready_threads() {
    let mut k = fresh();
    assert_eq!(sys_thread_create(&mut k), 1);
    assert_eq!(k.running, Some((0, 0)));
    assert_eq!(sys_yield(&mut k), 0);
    assert_eq!(k.running, Some((0, 1)));
    assert_eq!(sys_yield(&mut k), 0);
    assert_eq!(k.running, Some((0, 0)));
}

#[test]
fn syscall_histogram_counts_per_thread() {
    let mut k = fresh();
    note_syscall(&mut k, 124);
    note_syscall(&mut k, 124);
    note_syscall(&mut k, 64);
    // an out-of-range number changes nothing
    note_syscall(&mut k, 100_000);
    let mut ti = TaskInfo { status: TaskStatus::Ready, syscall_times: Vec::new(), time: 0 };
    assert_eq!(sys_task_info(&k, &mut ti), 0);
    assert_eq!(ti.syscall_times[124], 2);
    assert_eq!(ti.syscall_times[64], 1);
    assert_eq!(ti.syscall_times[0], 0);
}

#[test]
fn fork_clones_resource_state() {
    let mut k = fresh();
    assert_eq!(sys_enable_deadlock_detect(&mut k, 1), 0);
    assert_eq!(sys_mutex_create(&mut k, true), 0);
    assert_eq!(sys_mutex_create(&mut k, false), 1);
    assert_eq!(sys_semaphore_create(&mut k, 2), 0);
    // the caller holds mutex 0 and one semaphore unit at the fork point
    assert_eq!(sys_mutex_lock(&mut k, 0), 0);
    assert_eq!(sys_semaphore_down(&mut k, 0), 0);
    assert_eq!(sys_fork(&mut k), 1);
    let c = &k.procs[1];
    // the primitives carry over under the same ids, queues emptied
    assert_eq!(c.mutexes.len(), 2);
    assert!(c.mutexes[0].blocking);
    assert!(!c.mutexes[1].blocking);
    assert!(c.mutexes.iter().all(|m| m.queue.is_empty()));
    assert_eq!(c.sems.len(), 1);
    assert!(c.sems[0].queue.is_empty());
    // so does the detection flag and the forking thread's ledger
    assert!(c.deadlock_detect);
    assert_eq!(c.tasks[0].mutex_own, vec![1i64, 0]);
    assert_eq!(c.tasks[0].sem_own, vec![1i64]);
    // the child's view of availability matches: mutex 0 held, 1 free,
    // one semaphore unit left
    assert_eq!(c.mutex_status, vec![0i64, 1]);
    assert_eq!(c.sem_status, vec![1i64]);
    // and in the child the inherited mutex can be unlocked, then retaken
    assert_eq!(sys_yield(&mut k), 0);
    assert_eq!(k.running, Some((1, 0)));
    assert_eq!(sys_mutex_unlock(&mut k, 0), 0);
    assert_eq!(sys_mutex_lock(&mut k, 0), 0);
}

#[test]
fn fork_frees_mutexes_held_by_other_threads() {
    let mut k = fresh();
    assert_eq!(sys_mutex_create(&mut k, true), 0);
    assert_eq!(sys_thread_create(&mut k), 1);
    // thread 1 takes the mutex, then thread 0 forks
    assert_eq!(sys_yield(&mut k), 0);
    assert_eq!(k.running, Some((0, 1)));
    assert_eq!(sys_mutex_lock(&mut k, 0), 0);
    while k.running != Some((0, 0)) {
        assert_eq!(sys_yield(&mut k), 0);
    }
    let pid = sys_fork(&mut k);
    assert_eq!(pid, 1);
    // the holder does not exist in the child, so the unit returns to the
    // child's pool while the parent's stays held
    assert_eq!(k.procs[0].mutex_status, vec![0i64]);
    assert_eq!(k.procs[1].mutex_status, vec![1i64]);
    assert_eq!(k.procs[1].tasks[0].mutex_own, vec![0i64]);
}
