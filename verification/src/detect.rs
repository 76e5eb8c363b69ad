//! Banker's-style deadlock detection.
//!
//! Given, for every thread slot of a process, how many units of each
//! resource the thread currently holds and how many it currently requests,
//! plus the process's available-unit vector, the detector decides whether
//! every thread could still finish in some order: it repeatedly looks for an
//! unfinished thread whose whole request fits under the working vector,
//! returns that thread's holdings to the working vector, and declares the
//! state safe exactly when every thread slot finishes. A slot with no thread
//! or no ledger is trivially finished.
use vstd::prelude::*;

verus! {

/// Largest magnitude any ledger entry or available-unit count may have.
pub const RES_BOUND: i64 = 0x7fff_ffff;

/// Largest number of thread slots a process may have.
pub const MAX_TASKS: usize = 0x10000;

/// One thread's resource ledger over one family of resources (mutexes or
/// semaphores): entry `j` of each vector speaks of resource id `j`.
pub struct LedgerRow {
    /// Units of each resource the thread currently requests.
    pub require: Vec<i64>,
    /// Units of each resource the thread currently holds.
    pub own: Vec<i64>,
}

/// A ledger row in the abstract: the request vector and the holdings
/// vector of one thread slot, or nothing for an empty slot.
pub type RowView = Option<(Seq<i64>, Seq<i64>)>;

/// The ledger rows a vector of concrete rows stands for.
pub open spec fn rows_view(rs: Seq<Option<LedgerRow>>) -> Seq<RowView> {
    Seq::new(
        rs.len(),
        |i: int|
            if rs[i] is Some {
                Some((rs[i]->Some_0.require@, rs[i]->Some_0.own@))
            } else {
                None
            },
    )
}

/// Every request of the row lies under the working vector.
pub open spec fn row_fits(req: Seq<i64>, work: Seq<int>) -> bool {
    forall|j: int| 0 <= j < work.len() ==> req[j] <= work[j]
}

/// The working vector with a finished thread's holdings returned to it.
pub open spec fn with_own_added(work: Seq<int>, own: Seq<i64>) -> Seq<int> {
    Seq::new(work.len(), |j: int| work[j] + own[j])
}

/// State of one scan pass after the first `i` slots were visited: the finish
/// flags, the working vector, and whether any slot finished in this pass.
pub open spec fn pass_upto(
    rows: Seq<RowView>,
    finish0: Seq<bool>,
    work0: Seq<int>,
    i: nat,
) -> (Seq<bool>, Seq<int>, bool)
    decreases i,
{
    if i == 0 {
        (finish0, work0, false)
    } else {
        let st = pass_upto(rows, finish0, work0, (i - 1) as nat);
        let k = i - 1;
        if !st.0[k] && rows[k] is Some && row_fits(rows[k]->Some_0.0, st.1) {
            (st.0.update(k, true), with_own_added(st.1, rows[k]->Some_0.1), true)
        } else {
            st
        }
    }
}

/// State after `r` whole passes; a pass that finishes no thread stops the
/// scan, so later passes leave the state as it is.
pub open spec fn rounds_upto(
    rows: Seq<RowView>,
    finish0: Seq<bool>,
    work0: Seq<int>,
    r: nat,
) -> (Seq<bool>, Seq<int>)
    decreases r,
{
    if r == 0 {
        (finish0, work0)
    } else {
        let prev = rounds_upto(rows, finish0, work0, (r - 1) as nat);
        let p = pass_upto(rows, prev.0, prev.1, rows.len());
        if p.2 {
            (p.0, p.1)
        } else {
            prev
        }
    }
}

/// Initial finish flags: a slot with no ledger is trivially finished.
pub open spec fn init_finish(rows: Seq<RowView>) -> Seq<bool> {
    Seq::new(rows.len(), |i: int| rows[i] is None)
}

/// The available-unit vector as unbounded integers.
pub open spec fn avail_ints(avail: Seq<i64>) -> Seq<int> {
    Seq::new(avail.len(), |j: int| avail[j] as int)
}

/// The state is safe: after as many passes as there are slots, every slot
/// has finished.
pub open spec fn bankers_safe(rows: Seq<RowView>, avail: Seq<i64>) -> bool {
    forall|i: int|
        0 <= i < rows.len() ==> rounds_upto(
            rows,
            init_finish(rows),
            avail_ints(avail),
            rows.len(),
        ).0[i]
}

/// What the detector needs of its input: ledger rows as long as the
/// available vector, every entry and every available count bounded, and no
/// more slots than a process may have.
pub open spec fn detect_pre(rows: Seq<RowView>, avail: Seq<i64>) -> bool {
    &&& rows.len() <= MAX_TASKS
    &&& forall|i: int|
        0 <= i < rows.len() && rows[i] is Some ==> rows[i]->Some_0.0.len() == avail.len()
            && rows[i]->Some_0.1.len() == avail.len()
    &&& forall|i: int, j: int|
        0 <= i < rows.len() && rows[i] is Some && 0 <= j < avail.len() ==> -RES_BOUND <= #[trigger] rows[i]->Some_0.1[j] <= RES_BOUND
    &&& forall|j: int| 0 <= j < avail.len() ==> -RES_BOUND <= #[trigger] avail[j] <= RES_BOUND
}

/// A pass that finishes nothing changes nothing.
proof fn lemma_pass_no_progress(
    rows: Seq<RowView>,
    finish0: Seq<bool>,
    work0: Seq<int>,
    i: nat,
)
    requires
        !pass_upto(rows, finish0, work0, i).2,
    ensures
        pass_upto(rows, finish0, work0, i).0 == finish0,
        pass_upto(rows, finish0, work0, i).1 == work0,
    decreases i,
{
    if i > 0 {
        lemma_pass_no_progress(rows, finish0, work0, (i - 1) as nat);
    }
}

/// Once a pass finishes nothing, every later round leaves the state as it
/// is.
proof fn lemma_rounds_stable(
    rows: Seq<RowView>,
    finish0: Seq<bool>,
    work0: Seq<int>,
    r: nat,
    r2: nat,
)
    requires
        r <= r2,
        !pass_upto(
            rows,
            rounds_upto(rows, finish0, work0, r).0,
            rounds_upto(rows, finish0, work0, r).1,
            rows.len(),
        ).2,
    ensures
        rounds_upto(rows, finish0, work0, r2) == rounds_upto(rows, finish0, work0, r),
    decreases r2,
{
    if r2 > r {
        lemma_rounds_stable(rows, finish0, work0, r, (r2 - 1) as nat);
    }
}


/// A pass never clears a finish flag.
proof fn lemma_pass_keeps_finished(
    rows: Seq<RowView>,
    finish0: Seq<bool>,
    work0: Seq<int>,
    i: nat,
    j: int,
)
    requires
        i <= finish0.len(),
        rows.len() <= finish0.len(),
        0 <= j < finish0.len(),
        finish0[j],
    ensures
        pass_upto(rows, finish0, work0, i).0[j],
        pass_upto(rows, finish0, work0, i).0.len() == finish0.len(),
    decreases i,
{
    if i > 0 {
        lemma_pass_keeps_finished(rows, finish0, work0, (i - 1) as nat, j);
    }
}

/// With no holdings negative, the working vector only grows.
proof fn lemma_pass_work_grows(
    rows: Seq<RowView>,
    finish0: Seq<bool>,
    work0: Seq<int>,
    i: nat,
)
    requires
        i <= rows.len(),
        forall|t: int|
            0 <= t < rows.len() && rows[t] is Some ==> (#[trigger] rows[t])->Some_0.1.len()
                == work0.len(),
        forall|t: int, j: int|
            0 <= t < rows.len() && rows[t] is Some && 0 <= j < work0.len() ==> (
            #[trigger] rows[t]->Some_0.1[j]) >= 0,
    ensures
        pass_upto(rows, finish0, work0, i).1.len() == work0.len(),
        forall|j: int|
            0 <= j < work0.len() ==> #[trigger] pass_upto(rows, finish0, work0, i).1[j]
                >= work0[j],
    decreases i,
{
    if i > 0 {
        lemma_pass_work_grows(rows, finish0, work0, (i - 1) as nat);
    }
}

/// One pass finishes every slot when every request already fits under the
/// starting vector.
proof fn lemma_pass_finishes_fitting(
    rows: Seq<RowView>,
    work0: Seq<int>,
    i: nat,
)
    requires
        i <= rows.len(),
        forall|t: int|
            0 <= t < rows.len() && rows[t] is Some ==> (#[trigger] rows[t])->Some_0.0.len()
                == work0.len() && rows[t]->Some_0.1.len() == work0.len(),
        forall|t: int, j: int|
            0 <= t < rows.len() && rows[t] is Some && 0 <= j < work0.len() ==> (
            #[trigger] rows[t]->Some_0.1[j]) >= 0,
        forall|t: int, j: int|
            0 <= t < rows.len() && rows[t] is Some && 0 <= j < work0.len() ==> (
            #[trigger] rows[t]->Some_0.0[j]) <= work0[j],
    ensures
        forall|j: int| 0 <= j < i ==> #[trigger] pass_upto(rows, init_finish(rows), work0, i).0[j],
        pass_upto(rows, init_finish(rows), work0, i).0.len() == rows.len(),
    decreases i,
{
    if i > 0 {
        lemma_pass_finishes_fitting(rows, work0, (i - 1) as nat);
        let st = pass_upto(rows, init_finish(rows), work0, (i - 1) as nat);
        let k = i - 1;
        lemma_pass_work_grows(rows, init_finish(rows), work0, (i - 1) as nat);
        if !st.0[k] {
            if rows[k] is None {
                lemma_pass_keeps_finished(rows, init_finish(rows), work0, (i - 1) as nat, k);
                assert(false);
            }
            assert forall|j: int| 0 <= j < st.1.len() implies rows[k]->Some_0.0[j] <= st.1[j] by {
                assert(st.1[j] >= work0[j]);
                assert(rows[k]->Some_0.0[j] <= work0[j]);
            }
            assert(row_fits(rows[k]->Some_0.0, st.1));
        }
        assert forall|j: int| 0 <= j < i implies #[trigger] pass_upto(
            rows,
            init_finish(rows),
            work0,
            i,
        ).0[j] by {
            if j < i - 1 {
            }
        }
    }
}

proof fn lemma_pass_keeps_finished_len(
    rows: Seq<RowView>,
    finish0: Seq<bool>,
    work0: Seq<int>,
    i: nat,
)
    requires
        i <= finish0.len(),
        rows.len() <= finish0.len(),
    ensures
        pass_upto(rows, finish0, work0, i).0.len() == finish0.len(),
    decreases i,
{
    if i > 0 {
        lemma_pass_keeps_finished_len(rows, finish0, work0, (i - 1) as nat);
    }
}

/// Law: a state in which every thread's whole request already fits under
/// the available vector — and no thread's holdings are negative — is safe:
/// the detector admits it.
pub proof fn lemma_fitting_requests_are_safe(rows: Seq<RowView>, avail: Seq<i64>)
    requires
        forall|t: int|
            0 <= t < rows.len() && rows[t] is Some ==> (#[trigger] rows[t])->Some_0.0.len()
                == avail.len() && rows[t]->Some_0.1.len() == avail.len(),
        forall|t: int, j: int|
            0 <= t < rows.len() && rows[t] is Some && 0 <= j < avail.len() ==> (
            #[trigger] rows[t]->Some_0.1[j]) >= 0,
        forall|t: int, j: int|
            0 <= t < rows.len() && rows[t] is Some && 0 <= j < avail.len() ==> (
            #[trigger] rows[t]->Some_0.0[j]) <= avail[j],
    ensures
        bankers_safe(rows, avail),
{
    let f0 = init_finish(rows);
    let w0 = avail_ints(avail);
    let n = rows.len();
    lemma_pass_finishes_fitting(rows, w0, n);
    let p1 = pass_upto(rows, f0, w0, n);
    if n > 0 {
        let first = rounds_upto(rows, f0, w0, 1);
        assert(rounds_upto(rows, f0, w0, 0) == (f0, w0));
        if p1.2 {
            assert(first.0 == p1.0);
        } else {
            lemma_pass_no_progress(rows, f0, w0, n);
            assert(first.0 == f0);
            assert forall|j: int| 0 <= j < n implies #[trigger] first.0[j] by {
                assert(p1.0[j]);
            }
        }
        assert forall|j: int| 0 <= j < n implies #[trigger] first.0[j] by {
            assert(p1.0[j]);
        }
        lemma_rounds_keep_all_finished_from(rows, f0, w0, 1, n);
    }
}

/// Finished-everywhere states stay finished through later rounds.
proof fn lemma_rounds_keep_all_finished_from(
    rows: Seq<RowView>,
    finish0: Seq<bool>,
    work0: Seq<int>,
    r0: nat,
    r: nat,
)
    requires
        r0 <= r,
        rounds_upto(rows, finish0, work0, r0).0.len() == rows.len(),
        forall|j: int|
            0 <= j < rows.len() ==> #[trigger] rounds_upto(rows, finish0, work0, r0).0[j],
    ensures
        forall|j: int| 0 <= j < rows.len() ==> #[trigger] rounds_upto(rows, finish0, work0, r).0[j],
        rounds_upto(rows, finish0, work0, r).0.len() == rows.len(),
    decreases r - r0,
{
    if r > r0 {
        lemma_rounds_keep_all_finished_from(rows, finish0, work0, r0, (r - 1) as nat);
        let prev = rounds_upto(rows, finish0, work0, (r - 1) as nat);
        assert(prev.0.len() == rows.len());
        assert forall|j: int| 0 <= j < rows.len() implies #[trigger] rounds_upto(
            rows,
            finish0,
            work0,
            r,
        ).0[j] by {
            lemma_pass_keeps_finished(rows, prev.0, prev.1, rows.len(), j);
        }
        lemma_pass_keeps_finished_len(rows, prev.0, prev.1, rows.len());
    }
}

/// The exec working vector read as unbounded integers.
pub open spec fn work_ints(work: Seq<i128>) -> Seq<int> {
    Seq::new(work.len(), |j: int| work[j] as int)
}

/// Decides whether the state the ledger rows and the available vector
/// describe is safe, by the scan that `bankers_safe` states.
pub fn detect_safe(rows: &Vec<Option<LedgerRow>>, avail: &Vec<i64>) -> (safe: bool)
    requires
        detect_pre(rows_view(rows@), avail@),
    ensures
        safe == bankers_safe(rows_view(rows@), avail@),
{
    let n = rows.len();
    let m = avail.len();
    let ghost rv = rows_view(rows@);
    let ghost f0 = init_finish(rv);
    let ghost w0 = avail_ints(avail@);
    let mut finish: Vec<bool> = Vec::new();
    let mut i: usize = 0;
    while i < n
        invariant
            i <= n,
            n == rows@.len(),
            finish@.len() == i,
            forall|k: int| 0 <= k < i ==> finish@[k] == (rows_view(rows@)[k] is None),
        decreases n - i,
    {
        finish.push(rows[i].is_none());
        i = i + 1;
    }
    proof {
        assert(finish@ =~= f0);
    }
    let mut work: Vec<i128> = Vec::new();
    let mut j: usize = 0;
    while j < m
        invariant
            j <= m,
            m == avail@.len(),
            work@.len() == j,
            forall|k: int| 0 <= k < j ==> work@[k] == avail@[k] as i128,
            forall|j2: int| 0 <= j2 < avail@.len() ==> -RES_BOUND <= #[trigger] avail@[j2] <= RES_BOUND,
        decreases m - j,
    {
        work.push(avail[j] as i128);
        j = j + 1;
    }
    proof {
        assert(work_ints(work@) =~= w0);
    }
    let ghost mut steps: int = 0;
    let mut r: usize = 0;
    let mut stopped = false;
    while r < n && !stopped
        invariant
            r <= n,
            n == rows@.len(),
            m == avail@.len(),
            rv == rows_view(rows@),
            detect_pre(rv, avail@),
            finish@.len() == n,
            work@.len() == m,
            0 <= steps,
            steps <= r as int * n as int,
            steps <= 0x1_0000_0001,
            forall|k: int|
                0 <= k < m ==> -(0x7fff_ffff * (1 + steps)) <= #[trigger] work@[k] <= 0x7fff_ffff * (1 + steps),
            !stopped ==> (finish@, work_ints(work@)) == rounds_upto(rv, f0, w0, r as nat),
            stopped ==> (finish@, work_ints(work@)) == rounds_upto(rv, f0, w0, n as nat),
        decreases n - r,
    {
        let ghost f_r = finish@;
        let ghost w_r = work_ints(work@);
        let mut progressed = false;
        let mut i: usize = 0;
        while i < n
            invariant
                i <= n,
                n == rows@.len(),
                m == avail@.len(),
                r < n,
                rv == rows_view(rows@),
                detect_pre(rv, avail@),
                finish@.len() == n,
                work@.len() == m,
                0 <= steps,
                steps <= r as int * n as int + i as int,
                steps <= 0x1_0000_0001,
                forall|k: int|
                    0 <= k < m ==> -(0x7fff_ffff * (1 + steps)) <= #[trigger] work@[k] <= 0x7fff_ffff * (1 + steps),
                (finish@, work_ints(work@), progressed) == pass_upto(rv, f_r, w_r, i as nat),
            decreases n - i,
        {
            let ghost st_pre = (finish@, work_ints(work@), progressed);
            if !finish[i] {
                match &rows[i] {
                    Some(row) => {
                        proof {
                            assert(rv[i as int] is Some);
                            assert(rv[i as int]->Some_0.0 == row.require@);
                            assert(rv[i as int]->Some_0.1 == row.own@);
                        }
                        let mut fits = true;
                        let mut j: usize = 0;
                        while j < m
                            invariant
                                j <= m,
                                m == avail@.len(),
                                work@.len() == m,
                                row.require@.len() == m,
                                fits <==> (forall|k: int|
                                    0 <= k < j ==> row.require@[k] <= work@[k] as int),
                            decreases m - j,
                        {
                            if (row.require[j] as i128) > work[j] {
                                fits = false;
                            }
                            j = j + 1;
                        }
                        proof {
                            assert(fits == row_fits(row.require@, work_ints(work@)));
                        }
                        if fits {
                            finish.set(i, true);
                            proof {
                                assert(steps + 1 <= r as int * n as int + i as int + 1);
                                assert(r as int * n as int + i as int + 1 <= 0x1_0000_0001)
                                    by (nonlinear_arith)
                                    requires
                                        0 <= r as int,
                                        r as int + 1 <= n as int,
                                        0 <= i as int,
                                        i as int + 1 <= n as int,
                                        n as int <= 0x10000,
                                ;
                                steps = steps + 1;
                            }
                            let ghost w_before = work_ints(work@);
                            let mut j: usize = 0;
                            while j < m
                                invariant
                                    j <= m,
                                    m == avail@.len(),
                                    work@.len() == m,
                                    row.own@.len() == m,
                                    w_before.len() == m,
                                    forall|k: int|
                                        0 <= k < m ==> -RES_BOUND <= #[trigger] row.own@[k] <= RES_BOUND,
                                    1 <= steps,
                                    steps <= 0x1_0000_0001,
                                    forall|k: int|
                                        0 <= k < m ==> -(0x7fff_ffff * steps) <= #[trigger] w_before[k] <= 0x7fff_ffff * steps,
                                    forall|k: int|
                                        j <= k < m ==> work@[k] as int == w_before[k],
                                    forall|k: int|
                                        0 <= k < j ==> work@[k] as int == w_before[k]
                                            + row.own@[k],
                                    forall|k: int|
                                        0 <= k < m ==> -(0x7fff_ffff * (1 + steps)) <= #[trigger] work@[k] <= 0x7fff_ffff * (1 + steps),
                                decreases m - j,
                            {
                                let ghost wpre = work@;
                                let nw: i128 = work[j] + row.own[j] as i128;
                                work.set(j, nw);
                                proof {
                                    assert(wpre[j as int] as int == w_before[j as int]);
                                    assert(-(0x7fff_ffff * steps) <= w_before[j as int]
                                        <= 0x7fff_ffff * steps);
                                    assert forall|k: int|
                                        0 <= k < m implies -(0x7fff_ffff * (1 + steps))
                                        <= #[trigger] work@[k] <= 0x7fff_ffff * (1 + steps) by {
                                        if k != j as int {
                                            assert(work@[k] == wpre[k]);
                                            assert(-(0x7fff_ffff * (1 + steps)) <= wpre[k]
                                                <= 0x7fff_ffff * (1 + steps));
                                        }
                                    }
                                }
                                j = j + 1;
                            }
                            progressed = true;
                            proof {
                                assert(work_ints(work@) =~= with_own_added(w_before, row.own@));
                                assert(finish@ =~= st_pre.0.update(i as int, true));
                            }
                        }
                    },
                    None => {
                    },
                }
            }
            i = i + 1;
            proof {
                assert((finish@, work_ints(work@), progressed) == pass_upto(
                    rv,
                    f_r,
                    w_r,
                    i as nat,
                ));
            }
        }
        if !progressed {
            stopped = true;
            proof {
                lemma_pass_no_progress(rv, f_r, w_r, n as nat);
                lemma_rounds_stable(rv, f0, w0, r as nat, n as nat);
            }
        }
        r = r + 1;
        proof {
            assert(r as int * n as int == (r - 1) as int * n as int + n as int) by (nonlinear_arith);
            assert(steps <= r as int * n as int);
        }
    }
    let mut safe = true;
    let mut i: usize = 0;
    while i < n
        invariant
            i <= n,
            n == rows@.len(),
            finish@.len() == n,
            finish@ == rounds_upto(rows_view(rows@), f0, w0, n as nat).0,
            safe <==> (forall|k: int| 0 <= k < i ==> finish@[k]),
        decreases n - i,
    {
        if !finish[i] {
            safe = false;
        }
        i = i + 1;
    }
    safe
}

} // verus!
