//! Deadlock checks for mutex and semaphore requests, built on the banker's
//! safety check.
use vstd::prelude::*;
use std::collections::BTreeMap;
use crate::banker::{
    all_but, lemma_single_request_safe, matrix_entry, lemma_released_subset, can_finish, entry, is_safe, is_safe_sequence, lemma_released_nonneg, released, rows, safe_state,
    work_after, all_threads, column_total,
};

verus! {

/// Thread ids of the holders, in mutex order (one entry per mutex held).
pub open spec fn holder_tids(holders: Seq<Option<usize>>) -> Seq<usize>
    decreases holders.len(),
{
    if holders.len() == 0 {
        Seq::empty()
    } else {
        let rest = holder_tids(holders.drop_last());
        match holders.last() {
            Some(t) => rest.push(t),
            None => rest,
        }
    }
}

/// The threads taking part in a mutex check: the holders, then the
/// requesting thread if it holds nothing.
pub open spec fn mutex_threads(holders: Seq<Option<usize>>, current_tid: usize) -> Seq<usize> {
    let h = holder_tids(holders);
    if h.contains(current_tid) {
        h
    } else {
        h.push(current_tid)
    }
}

/// Row of each thread id: its last position in `tids`.
pub open spec fn tid_rows(tids: Seq<usize>) -> Map<usize, usize>
    decreases tids.len(),
{
    if tids.len() == 0 {
        Map::empty()
    } else {
        tid_rows(tids.drop_last()).insert(tids.last(), (tids.len() - 1) as usize)
    }
}

/// Free units of each mutex: 1 when nobody holds it.
pub open spec fn mutex_available(mutex_count: usize, holders: Seq<Option<usize>>) -> Seq<usize> {
    Seq::new(
        mutex_count as nat,
        |j: int|
            if j < holders.len() && holders[j] is Some {
                0usize
            } else {
                1usize
            },
    )
}

/// Row `i` holds mutex `j` when the holder of `j` is the thread of row `i`.
pub open spec fn mutex_allocation(
    mutex_count: usize,
    holders: Seq<Option<usize>>,
    tids: Seq<usize>,
) -> Seq<Seq<usize>> {
    Seq::new(
        tids.len(),
        |i: int|
            Seq::new(
                mutex_count as nat,
                |j: int|
                    if j < holders.len() && (holders[j] matches Some(h) && tid_rows(tids)[h] == i) {
                        1usize
                    } else {
                        0usize
                    },
            ),
    )
}

/// Only the requesting thread asks for anything: one unit of mutex `mutex_id`.
pub open spec fn mutex_need(
    mutex_count: usize,
    tids: Seq<usize>,
    current_tid: usize,
    mutex_id: usize,
) -> Seq<Seq<usize>> {
    Seq::new(
        tids.len(),
        |i: int|
            Seq::new(
                mutex_count as nat,
                |j: int|
                    if tid_rows(tids)[current_tid] == i && j == mutex_id {
                        1usize
                    } else {
                        0usize
                    },
            ),
    )
}

/// The requesting thread already holds the mutex it asks for.
pub open spec fn requests_own_mutex(
    mutex_count: usize,
    current_tid: usize,
    mutex_id: usize,
    holders: Seq<Option<usize>>,
) -> bool {
    mutex_id < mutex_count && mutex_id < holders.len() && holders[mutex_id as int] == Some(
        current_tid,
    )
}

proof fn lemma_tid_rows(tids: Seq<usize>)
    requires
        tids.len() <= usize::MAX,
    ensures
        forall|t: usize| #[trigger] tid_rows(tids).contains_key(t) <==> tids.contains(t),
        forall|t: usize|
            tids.contains(t) ==> (#[trigger] tid_rows(tids)[t]) < tids.len() && tids[tid_rows(
                tids,
            )[t] as int] == t,
    decreases tids.len(),
{
    if tids.len() > 0 {
        let rest = tids.drop_last();
        lemma_tid_rows(rest);
        let last = tids.last();
        let m = tid_rows(tids);
        assert(m == tid_rows(rest).insert(last, (tids.len() - 1) as usize));
        assert forall|t: usize| tids.contains(t) <==> (rest.contains(t) || t == last) by {
            if tids.contains(t) && t != last {
                let p: int = tids.index_of(t);
                assert(p < tids.len() - 1);
                assert(rest[p] == t);
            }
            if rest.contains(t) {
                let p: int = rest.index_of(t);
                assert(tids[p] == t);
            }
            if t == last {
                assert(tids[tids.len() - 1] == t);
            }
        }
        assert forall|t: usize| #[trigger] m.contains_key(t) <==> tids.contains(t) by {}
        assert forall|t: usize| tids.contains(t) implies (#[trigger] m[t]) < tids.len() && tids[m[
            t] as int] == t by {
            if t == last {
                assert(m[t] == tids.len() - 1);
            } else {
                assert(rest.contains(t));
                assert(m[t] == tid_rows(rest)[t]);
                assert(tids[m[t] as int] == rest[m[t] as int]);
            }
        }
    }
}

proof fn lemma_holder_tids(holders: Seq<Option<usize>>)
    ensures
        holder_tids(holders).len() <= holders.len(),
        forall|j: int|
            0 <= j < holders.len() && (#[trigger] holders[j]) is Some ==> holder_tids(
                holders,
            ).contains(holders[j]->0),
        forall|k: int|
            0 <= k < holder_tids(holders).len() ==> exists|j: int|
                0 <= j < holders.len() && holders[j] == Some(#[trigger] holder_tids(holders)[k]),
    decreases holders.len(),
{
    if holders.len() > 0 {
        let rest = holders.drop_last();
        lemma_holder_tids(rest);
        let r = holder_tids(rest);
        let h = holder_tids(holders);
        assert forall|j: int| 0 <= j < holders.len() && (#[trigger] holders[j]) is Some implies h.contains(
            holders[j]->0,
        ) by {
            if j < holders.len() - 1 {
                assert(rest[j] == holders[j]);
                let p: int = r.index_of(holders[j]->0);
                assert(h[p] == r[p]);
            } else {
                assert(h[h.len() - 1] == holders[j]->0);
            }
        }
        assert forall|k: int| 0 <= k < h.len() implies exists|j: int|
            0 <= j < holders.len() && holders[j] == Some(#[trigger] h[k]) by {
            if k < r.len() {
                assert(h[k] == r[k]);
                let j: int = choose|j: int| 0 <= j < rest.len() && rest[j] == Some(#[trigger] r[k]);
                assert(holders[j] == rest[j]);
            } else {
                assert(holders[holders.len() - 1] == Some(h[k]));
            }
        }
    }
}

/// With no other thread able to hand a unit of resource `j` back, the
/// threads in `done` hand back what row `p` holds if `p` is among them, and
/// nothing otherwise.
proof fn lemma_released_single(alloc: Seq<Seq<usize>>, done: Seq<int>, j: int, p: int)
    requires
        done.no_duplicates(),
        forall|i: int| i != p ==> #[trigger] entry(alloc, i, j) == 0,
    ensures
        released(alloc, done, j) == if done.contains(p) {
            entry(alloc, p, j)
        } else {
            0
        },
    decreases done.len(),
{
    if done.len() > 0 {
        let rest = done.drop_last();
        assert(rest.no_duplicates());
        lemma_released_single(alloc, rest, j, p);
        if done.contains(p) && done.last() != p {
            let q: int = done.index_of(p);
            assert(rest[q] == p);
        }
        if rest.contains(p) {
            let q: int = rest.index_of(p);
            assert(done[q] == p);
            assert(done.last() != p);
        }
    }
}

/// The threads `0 .. n` are listed once each, in order.
proof fn lemma_all_threads_facts(n: nat)
    ensures
        all_threads(n).no_duplicates(),
        forall|i: int| 0 <= i < n ==> #[trigger] all_threads(n).contains(i),
        forall|k: int| 0 <= k < n ==> #[trigger] all_threads(n)[k] == k,
{
    assert forall|i: int| 0 <= i < n implies #[trigger] all_threads(n).contains(i) by {
        assert(all_threads(n)[i] == i);
    }
}

/// The deadlock check for a mutex request has a closed form: with at least
/// one thread and one mutex, the state is unsafe exactly when the requesting
/// thread asks for a mutex it already holds.
pub proof fn lemma_mutex_check_closed_form(
    mutex_count: usize,
    current_tid: usize,
    mutex_id: usize,
    holders: Seq<Option<usize>>,
)
    requires
        mutex_count > 0,
        mutex_threads(holders, current_tid).len() <= usize::MAX,
    ensures
        safe_state(
            mutex_available(mutex_count, holders),
            mutex_allocation(mutex_count, holders, mutex_threads(holders, current_tid)),
            mutex_need(mutex_count, mutex_threads(holders, current_tid), current_tid, mutex_id),
        ) == !requests_own_mutex(mutex_count, current_tid, mutex_id, holders),
{
    let tids = mutex_threads(holders, current_tid);
    let av = mutex_available(mutex_count, holders);
    let al = mutex_allocation(mutex_count, holders, tids);
    let nd = mutex_need(mutex_count, tids, current_tid, mutex_id);
    let n: nat = tids.len();
    lemma_holder_tids(holders);
    lemma_tid_rows(tids);
    let hs = holder_tids(holders);
    assert forall|t: usize| hs.contains(t) implies tids.contains(t) by {
        if !hs.contains(current_tid) {
            let p: int = hs.index_of(t);
            assert(tids[p] == t);
        }
    }
    assert(tids.contains(current_tid)) by {
        if !hs.contains(current_tid) {
            assert(tids[tids.len() - 1] == current_tid);
        }
    }
    let c: int = tid_rows(tids)[current_tid] as int;
    assert(0 <= c < n);
    // Only the row of the holder of `mutex_id` holds any of it.
    let holder_row: int = if mutex_id < holders.len() && holders[mutex_id as int] is Some {
        tid_rows(tids)[holders[mutex_id as int]->0] as int
    } else {
        -1
    };
    assert forall|i: int| i != holder_row implies #[trigger] entry(al, i, mutex_id as int) == 0 by {
        if 0 <= i < al.len() && mutex_id < mutex_count {
            assert(al[i][mutex_id as int] == 0);
        }
    }
    if requests_own_mutex(mutex_count, current_tid, mutex_id, holders) {
        assert(holder_row == c);
        if safe_state(av, al, nd) {
            let s = choose|s: Seq<int>| is_safe_sequence(av, al, nd, s);
            assert(s.contains(c));
            let k: int = s.index_of(c);
            let pre = s.take(k);
            assert(pre.no_duplicates()) by {
                assert forall|p: int, q: int|
                    0 <= p < pre.len() && 0 <= q < pre.len() && p != q implies pre[p] != pre[q] by {
                    assert(pre[p] == s[p]);
                    assert(pre[q] == s[q]);
                }
            }
            assert(!pre.contains(c)) by {
                if pre.contains(c) {
                    let q: int = pre.index_of(c);
                    assert(s[q] == c);
                }
            }
            lemma_released_single(al, pre, mutex_id as int, c);
            assert(can_finish(av, al, nd, pre, s[k]));
            assert(entry(nd, c, mutex_id as int) == 1);
            assert(av[mutex_id as int] == 0);
            assert(entry(nd, c, mutex_id as int) <= work_after(av, al, pre, mutex_id as int));
        }
    } else {
        lemma_all_threads_facts(n);
        let all = all_threads(n);
        let others = all.remove(c);
        let order = others.push(c);
        assert forall|k: int| 0 <= k < others.len() implies #[trigger] others[k] == if k < c {
            k
        } else {
            k + 1
        } by {}
        assert(order.no_duplicates()) by {
            assert forall|p: int, q: int|
                0 <= p < order.len() && 0 <= q < order.len() && p != q implies order[p]
                    != order[q] by {
                if p < others.len() {
                    assert(order[p] == others[p]);
                }
                if q < others.len() {
                    assert(order[q] == others[q]);
                }
            }
        }
        assert forall|k: int| 0 <= k < order.len() implies 0 <= #[trigger] order[k] < al.len() by {
            if k < others.len() {
                assert(order[k] == others[k]);
            }
        }
        assert forall|i: int| 0 <= i < al.len() implies #[trigger] order.contains(i) by {
            if i < c {
                assert(order[i] == others[i]);
            } else if i > c {
                assert(order[i - 1] == others[i - 1]);
            } else {
                assert(order[order.len() - 1] == c);
            }
        }
        assert forall|k: int| 0 <= k < order.len() implies can_finish(
            av,
            al,
            nd,
            order.take(k),
            #[trigger] order[k],
        ) by {
            assert forall|j: int| 0 <= j < av.len() implies #[trigger] entry(nd, order[k], j)
                <= work_after(av, al, order.take(k), j) by {
                lemma_released_nonneg(al, order.take(k), j);
                if k == order.len() - 1 && j == mutex_id {
                    assert(order.take(k) =~= others);
                    assert(order[k] == c);
                    if holder_row >= 0 {
                        let h: usize = holders[mutex_id as int]->0;
                        assert(hs.contains(h));
                        assert(h != current_tid);
                        assert(tids[holder_row] == h);
                        assert(holder_row != c);
                        assert(others.contains(holder_row)) by {
                            if holder_row < c {
                                assert(others[holder_row] == holder_row);
                            } else {
                                assert(others[holder_row - 1] == holder_row);
                            }
                        }
                        assert(others.no_duplicates()) by {
                            assert forall|p: int, q: int|
                                0 <= p < others.len() && 0 <= q < others.len() && p
                                    != q implies others[p] != others[q] by {}
                        }
                        lemma_released_single(al, others, mutex_id as int, holder_row);
                        assert(entry(al, holder_row, mutex_id as int) == 1);
                    }
                } else if k < order.len() - 1 {
                    assert(order[k] == others[k]);
                    assert(order[k] != c);
                }
            }
        }
        assert(is_safe_sequence(av, al, nd, order));
    }
}

/// Row `i` holds mutex `j` among the first `upto` mutexes.
spec fn held_in_prefix(
    holders: Seq<Option<usize>>,
    rows_of: Map<usize, usize>,
    upto: int,
    i: int,
    j: int,
) -> usize {
    if j < upto && j < holders.len() && (holders[j] matches Some(h) && rows_of[h] == i) {
        1usize
    } else {
        0usize
    }
}

/// An `n` by `m` matrix of zeros.
fn zero_matrix(n: usize, m: usize) -> (z: Vec<Vec<usize>>)
    ensures
        z.len() == n,
        forall|i: int| 0 <= i < n ==> (#[trigger] z@[i]).len() == m,
        forall|i: int, j: int| 0 <= i < n && 0 <= j < m ==> #[trigger] z@[i]@[j] == 0,
{
    let mut z: Vec<Vec<usize>> = Vec::new();
    let mut i: usize = 0;
    while i < n
        invariant
            i <= n,
            z.len() == i,
            forall|ii: int| 0 <= ii < i ==> (#[trigger] z@[ii]).len() == m,
            forall|ii: int, j: int| 0 <= ii < i && 0 <= j < m ==> #[trigger] z@[ii]@[j] == 0,
        decreases n - i,
    {
        let mut row: Vec<usize> = Vec::new();
        let mut j: usize = 0;
        while j < m
            invariant
                j <= m,
                row.len() == j,
                forall|jj: int| 0 <= jj < j ==> #[trigger] row@[jj] == 0,
            decreases m - j,
        {
            row.push(0);
            j = j + 1;
        }
        z.push(row);
        i = i + 1;
    }
    z
}

/// Whether `tid` occurs in `tids`.
fn contains_tid(tids: &Vec<usize>, tid: usize) -> (found: bool)
    ensures
        found == tids@.contains(tid),
{
    let mut k: usize = 0;
    while k < tids.len()
        invariant
            k <= tids.len(),
            forall|p: int| 0 <= p < k ==> tids@[p] != tid,
        decreases tids.len() - k,
    {
        if tids[k] == tid {
            return true;
        }
        k = k + 1;
    }
    false
}

/// Maps each thread id to its row: its last position in `tids`.
fn tid_index_map(tids: &Vec<usize>) -> (rows_of: BTreeMap<usize, usize>)
    ensures
        rows_of@ == tid_rows(tids@),
{
    broadcast use vstd::std_specs::btree::group_btree_axioms, vstd::laws_cmp::group_laws_cmp;

    let mut rows_of: BTreeMap<usize, usize> = BTreeMap::new();
    let mut idx: usize = 0;
    let ghost mut k: int = 0;
    while idx < tids.len()
        invariant
            k == idx,
            idx <= tids.len(),
            rows_of@ == tid_rows(tids@.take(k)),
        decreases tids.len() - idx,
    {
        proof {
            assert(tids@.take(k + 1).drop_last() =~= tids@.take(k));
        }
        rows_of.insert(tids[idx], idx);
        idx = idx + 1;
        proof {
            k = k + 1;
        }
    }
    proof {
        assert(tids@.take(k) =~= tids@);
    }
    rows_of
}

/// The row of thread `tid`, if it has one.
fn row_of_tid(rows_of: &BTreeMap<usize, usize>, tid: usize) -> (row: Option<usize>)
    ensures
        row == if rows_of@.contains_key(tid) {
            Some(rows_of@[tid])
        } else {
            None
        },
{
    broadcast use vstd::std_specs::btree::group_btree_axioms, vstd::laws_cmp::group_laws_cmp;

    match rows_of.get(&tid) {
        Some(r) => Some(*r),
        None => None,
    }
}

/// Banker's-algorithm based deadlock check for a mutex request, each mutex
/// being a single-unit resource.
///
/// `mutex_holders[j]` is the thread holding mutex `j`, if any. The threads
/// taking part are the holders and the requesting thread `current_tid`, which
/// asks for one unit of mutex `mutex_id`. The result says whether the state
/// after the request stays safe; with no thread or no mutex it is `true`.
pub fn check_mutex_deadlock_safe(
    thread_count: usize,
    mutex_count: usize,
    current_tid: usize,
    mutex_id: usize,
    mutex_holders: &[Option<usize>],
) -> (safe: bool)
    ensures
        safe == (thread_count == 0 || mutex_count == 0 || safe_state(
            mutex_available(mutex_count, mutex_holders@),
            mutex_allocation(
                mutex_count,
                mutex_holders@,
                mutex_threads(mutex_holders@, current_tid),
            ),
            mutex_need(
                mutex_count,
                mutex_threads(mutex_holders@, current_tid),
                current_tid,
                mutex_id,
            ),
        )),
        safe == !(thread_count > 0 && requests_own_mutex(
            mutex_count,
            current_tid,
            mutex_id,
            mutex_holders@,
        )),
{
    if thread_count == 0 || mutex_count == 0 {
        return true;
    }
    let ghost holders = mutex_holders@;
    // available[j] = 1 if mutex j is free, 0 otherwise
    let mut available: Vec<usize> = Vec::with_capacity(mutex_count);
    let mut j: usize = 0;
    while j < mutex_count
        invariant
            j <= mutex_count,
            holders == mutex_holders@,
            available@ =~= mutex_available(mutex_count, holders).take(j as int),
        decreases mutex_count - j,
    {
        if j < mutex_holders.len() {
            available.push(
                if mutex_holders[j].is_none() {
                    1
                } else {
                    0
                },
            );
        } else {
            available.push(1);
        }
        j = j + 1;
    }
    // Collect all thread tids involved (holders + the current requester).
    let mut all_tids: Vec<usize> = Vec::new();
    let mut k: usize = 0;
    while k < mutex_holders.len()
        invariant
            k <= mutex_holders.len(),
            holders == mutex_holders@,
            all_tids@ == holder_tids(holders.take(k as int)),
            all_tids.len() <= k,
        decreases mutex_holders.len() - k,
    {
        proof {
            assert(holders.take(k + 1).drop_last() =~= holders.take(k as int));
        }
        if let Some(t) = mutex_holders[k] {
            all_tids.push(t);
        }
        k = k + 1;
    }
    proof {
        assert(holders.take(holders.len() as int) =~= holders);
    }
    if !contains_tid(&all_tids, current_tid) {
        all_tids.push(current_tid);
    }
    let ghost tids = all_tids@;
    let n: usize = all_tids.len();
    proof {
        assert(tids == mutex_threads(holders, current_tid));
        assert(tids.len() == n);
        lemma_mutex_check_closed_form(mutex_count, current_tid, mutex_id, holders);
    }
    let tid_to_idx: BTreeMap<usize, usize> = tid_index_map(&all_tids);
    proof {
        lemma_holder_tids(holders);
        lemma_tid_rows(tids);
        let hs = holder_tids(holders);
        assert forall|t: usize| hs.contains(t) implies tids.contains(t) by {
            if !hs.contains(current_tid) {
                let p: int = hs.index_of(t);
                assert(tids[p] == t);
            }
        }
    }
    let ghost rows_of = tid_rows(tids);
    // allocation[i][j] = 1 if thread i holds mutex j
    let mut allocation = zero_matrix(n, mutex_count);
    let mut j: usize = 0;
    while j < mutex_holders.len()
        invariant
            j <= mutex_holders.len(),
            holders == mutex_holders@,
            tids == all_tids@,
            n == tids.len(),
            rows_of == tid_rows(tids),
            tid_to_idx@ == rows_of,
            forall|t: usize| #[trigger] rows_of.contains_key(t) <==> tids.contains(t),
            forall|t: usize| tids.contains(t) ==> (#[trigger] rows_of[t]) < tids.len(),
            forall|jj: int|
                0 <= jj < holders.len() && (#[trigger] holders[jj]) is Some ==> tids.contains(
                    holders[jj]->0,
                ),
            allocation.len() == n,
            forall|i: int| 0 <= i < n ==> (#[trigger] allocation@[i]).len() == mutex_count,
            forall|i: int, jj: int|
                0 <= i < n && 0 <= jj < mutex_count ==> #[trigger] allocation@[i]@[jj]
                    == held_in_prefix(holders, rows_of, j as int, i, jj),
        decreases mutex_holders.len() - j,
    {
        let ghost before = allocation@;
        if let Some(holder_tid) = mutex_holders[j] {
            if let Some(holder_idx) = row_of_tid(&tid_to_idx, holder_tid) {
                if j < mutex_count {
                    allocation[holder_idx].set(j, 1);
                    assert(allocation@ == before.update(holder_idx as int, allocation@[holder_idx as int]));
                    assert(allocation@[holder_idx as int]@ == before[holder_idx as int]@.update(j as int, 1));
                }
            }
        }
        proof {
            assert forall|i: int, jj: int|
                0 <= i < n && 0 <= jj < mutex_count implies #[trigger] allocation@[i]@[jj]
                == held_in_prefix(holders, rows_of, j + 1, i, jj) by {
                assert(before[i]@[jj] == held_in_prefix(holders, rows_of, j as int, i, jj));
                if jj == j && holders[jj] is Some {
                    assert(tids.contains(holders[jj]->0));
                }
            }
        }
        j = j + 1;
    }
    // need[i][j] = 1 only for the current request
    let mut need = zero_matrix(n, mutex_count);
    if let Some(current_idx) = row_of_tid(&tid_to_idx, current_tid) {
        if mutex_id < mutex_count {
            need[current_idx].set(mutex_id, 1);
        }
    }
    proof {
        let al = mutex_allocation(mutex_count, holders, tids);
        let nd = mutex_need(mutex_count, tids, current_tid, mutex_id);
        let av = mutex_available(mutex_count, holders);
        assert forall|i: int| 0 <= i < n implies #[trigger] rows(allocation@)[i] =~= al[i] by {}
        assert(rows(allocation@) =~= al);
        assert forall|i: int| 0 <= i < n implies #[trigger] rows(need@)[i] =~= nd[i] by {}
        assert(rows(need@) =~= nd);
        assert(available@ =~= av);
        assert forall|jj: int| 0 <= jj < available@.len() implies available@[jj] + column_total(
            rows(allocation@),
            jj,
        ) <= usize::MAX by {
            let p: int = if jj < holders.len() && holders[jj] is Some {
                rows_of[holders[jj]->0] as int
            } else {
                -1
            };
            assert forall|i: int| i != p implies #[trigger] entry(al, i, jj) == 0 by {
                if 0 <= i < al.len() {
                    assert(al[i][jj] == 0);
                }
            }
            lemma_all_threads_facts(n as nat);
            lemma_released_single(al, all_threads(n as nat), jj, p);
        }
    }
    is_safe(&available, &allocation, &need)
}

/// Thread `t` holds a unit of some semaphore or waits in some queue.
pub open spec fn sem_involved(alloc: Seq<Seq<usize>>, queues: Seq<Seq<usize>>, t: int) -> bool {
    (exists|j: int| 0 <= j < alloc[t].len() && #[trigger] alloc[t][j] > 0) || (exists|q: int|
        0 <= q < queues.len() && #[trigger] queues[q].contains(t as usize))
}

/// The involved thread ids below `upto`, in increasing order.
pub open spec fn involved_tids(alloc: Seq<Seq<usize>>, queues: Seq<Seq<usize>>, upto: nat) -> Seq<
    usize,
>
    decreases upto,
{
    if upto == 0 {
        Seq::empty()
    } else {
        let rest = involved_tids(alloc, queues, (upto - 1) as nat);
        if sem_involved(alloc, queues, upto - 1) {
            rest.push((upto - 1) as usize)
        } else {
            rest
        }
    }
}

/// The threads taking part in a semaphore check: those holding or waiting
/// for a semaphore, then the requesting thread if it is not among them.
pub open spec fn sem_threads(
    alloc: Seq<Seq<usize>>,
    queues: Seq<Seq<usize>>,
    current_tid: usize,
) -> Seq<usize> {
    let t = involved_tids(alloc, queues, alloc.len());
    if t.contains(current_tid) {
        t
    } else {
        t.push(current_tid)
    }
}

/// Free units of each of the `sem_count` semaphores; a count that is not
/// positive, or missing, means none.
pub open spec fn sem_work(sem_count: usize, sem_available: Seq<isize>) -> Seq<usize> {
    Seq::new(
        sem_count as nat,
        |j: int|
            if j < sem_available.len() && sem_available[j] > 0 {
                sem_available[j] as usize
            } else {
                0usize
            },
    )
}

/// Row `i` holds what thread `tids[i]` holds of each semaphore.
pub open spec fn sem_holdings(sem_count: usize, alloc: Seq<Seq<usize>>, tids: Seq<usize>) -> Seq<
    Seq<usize>,
> {
    Seq::new(
        tids.len(),
        |i: int| Seq::new(sem_count as nat, |j: int| entry(alloc, tids[i] as int, j) as usize),
    )
}

/// Row `i` asks for one unit of each semaphore it waits for, and the
/// requesting thread for one unit of `sem_id`.
pub open spec fn sem_request(
    sem_count: usize,
    queues: Seq<Seq<usize>>,
    tids: Seq<usize>,
    current_tid: usize,
    sem_id: usize,
) -> Seq<Seq<usize>> {
    Seq::new(
        tids.len(),
        |i: int|
            Seq::new(
                sem_count as nat,
                |j: int|
                    if (tids[i] == current_tid && j == sem_id) || (j < queues.len()
                        && queues[j].contains(tids[i])) {
                        1usize
                    } else {
                        0usize
                    },
            ),
    )
}

proof fn lemma_involved_tids_increasing(alloc: Seq<Seq<usize>>, queues: Seq<Seq<usize>>, upto: nat)
    requires
        upto <= usize::MAX + 1,
    ensures
        forall|k: int|
            0 <= k < involved_tids(alloc, queues, upto).len() ==> #[trigger] involved_tids(
                alloc,
                queues,
                upto,
            )[k] < upto,
        forall|p: int, q: int|
            0 <= p < q < involved_tids(alloc, queues, upto).len() ==> #[trigger] involved_tids(
                alloc,
                queues,
                upto,
            )[p] < #[trigger] involved_tids(alloc, queues, upto)[q],
        forall|t: int|
            0 <= t < upto ==> (sem_involved(alloc, queues, t) <==> #[trigger] involved_tids(
                alloc,
                queues,
                upto,
            ).contains(t as usize)),
        involved_tids(alloc, queues, upto).len() <= upto,
    decreases upto,
{
    if upto > 0 {
        let u: nat = (upto - 1) as nat;
        lemma_involved_tids_increasing(alloc, queues, u);
        let rest = involved_tids(alloc, queues, u);
        let cur = involved_tids(alloc, queues, upto);
        assert forall|t: int| 0 <= t < upto implies (sem_involved(alloc, queues, t)
            <==> #[trigger] cur.contains(t as usize)) by {
            if t < u {
                if rest.contains(t as usize) {
                    let p: int = rest.index_of(t as usize);
                    assert(cur[p] == rest[p]);
                }
                if cur.contains(t as usize) {
                    let p: int = cur.index_of(t as usize);
                    if p < rest.len() {
                        assert(rest[p] == cur[p]);
                    }
                }
            } else {
                if sem_involved(alloc, queues, t) {
                    assert(cur[cur.len() - 1] == t as usize);
                }
                if cur.contains(t as usize) {
                    let p: int = cur.index_of(t as usize);
                    if p < rest.len() {
                        assert(rest[p] == cur[p]);
                    }
                }
            }
        }
    }
}

/// Each thread of a list without repetition has its own position as row.
proof fn lemma_tid_rows_unique(tids: Seq<usize>)
    requires
        tids.len() <= usize::MAX,
        tids.no_duplicates(),
    ensures
        forall|i: int| 0 <= i < tids.len() ==> #[trigger] tid_rows(tids)[tids[i]] == i,
        forall|t: usize| #[trigger] tid_rows(tids).contains_key(t) <==> tids.contains(t),
{
    lemma_tid_rows(tids);
    assert forall|i: int| 0 <= i < tids.len() implies #[trigger] tid_rows(tids)[tids[i]] == i by {
        assert(tids.contains(tids[i]));
    }
}

/// Whether some entry of `row` is positive.
fn row_has_positive(row: &Vec<usize>) -> (found: bool)
    ensures
        found == exists|j: int| 0 <= j < row@.len() && #[trigger] row@[j] > 0,
{
    let mut j: usize = 0;
    while j < row.len()
        invariant
            j <= row.len(),
            forall|jj: int| 0 <= jj < j ==> row@[jj] == 0,
        decreases row.len() - j,
    {
        if row[j] > 0 {
            return true;
        }
        j = j + 1;
    }
    false
}

/// Whether thread `tid` waits in one of the queues.
fn queues_contain(queues: &[Vec<usize>], tid: usize) -> (found: bool)
    ensures
        found == exists|q: int| 0 <= q < queues@.len() && #[trigger] rows(queues@)[q].contains(tid),
{
    let mut q: usize = 0;
    while q < queues.len()
        invariant
            q <= queues.len(),
            forall|qq: int| 0 <= qq < q ==> !(#[trigger] rows(queues@)[qq]).contains(tid),
        decreases queues.len() - q,
    {
        if contains_tid(&queues[q], tid) {
            proof {
                assert(rows(queues@)[q as int] == queues@[q as int]@);
            }
            return true;
        }
        q = q + 1;
    }
    false
}

/// The threads of a semaphore check are listed once each, the requesting
/// thread among them.
proof fn lemma_sem_threads_unique(al: Seq<Seq<usize>>, qs: Seq<Seq<usize>>, current_tid: usize)
    requires
        al.len() <= usize::MAX,
    ensures
        sem_threads(al, qs, current_tid).no_duplicates(),
        sem_threads(al, qs, current_tid).contains(current_tid),
{
    let tids = sem_threads(al, qs, current_tid);
    lemma_involved_tids_increasing(al, qs, al.len());
    let inv = involved_tids(al, qs, al.len());
    assert(tids.no_duplicates()) by {
        assert forall|p: int, q: int|
            0 <= p < tids.len() && 0 <= q < tids.len() && p != q implies tids[p] != tids[q] by {
            if p < inv.len() && q < inv.len() {
                if p < q {
                    assert(inv[p] < inv[q]);
                } else {
                    assert(inv[q] < inv[p]);
                }
            } else if p < inv.len() {
                assert(inv[p] == tids[p]);
                assert(inv.contains(tids[p]));
            } else if q < inv.len() {
                assert(inv[q] == tids[q]);
                assert(inv.contains(tids[q]));
            }
        }
    }
    assert(tids.contains(current_tid)) by {
        if !inv.contains(current_tid) {
            assert(tids[tids.len() - 1] == current_tid);
        }
    }
}

/// The threads taking part in a semaphore check, each once: those holding
/// or waiting for a semaphore in increasing order, then the requesting thread
/// if it is not among them.
fn semaphore_threads(
    sem_allocation: &[Vec<usize>],
    sem_wait_queues: &[Vec<usize>],
    current_tid: usize,
) -> (all_tids: Vec<usize>)
    ensures
        all_tids@ == sem_threads(rows(sem_allocation@), rows(sem_wait_queues@), current_tid),
        all_tids@.no_duplicates(),
        all_tids@.contains(current_tid),
{
    let ghost al = rows(sem_allocation@);
    let ghost qs = rows(sem_wait_queues@);
    // All threads with allocations or in some wait queue, plus the current one.
    let mut all_tids: Vec<usize> = Vec::new();
    let mut tid: usize = 0;
    while tid < sem_allocation.len()
        invariant
            tid <= sem_allocation.len(),
            al == rows(sem_allocation@),
            qs == rows(sem_wait_queues@),
            all_tids@ == involved_tids(al, qs, tid as nat),
        decreases sem_allocation.len() - tid,
    {
        let holds: bool = row_has_positive(&sem_allocation[tid]);
        let waits: bool = queues_contain(sem_wait_queues, tid);
        proof {
            assert(al[tid as int] == sem_allocation@[tid as int]@);
            if holds {
                let jw: int = choose|jw: int|
                    0 <= jw < sem_allocation@[tid as int]@.len() && #[trigger] sem_allocation@[tid as int]@[jw] > 0;
                assert(al[tid as int][jw] > 0);
                assert(sem_involved(al, qs, tid as int));
            }
            if waits {
                let qw: int = choose|qw: int|
                    0 <= qw < sem_wait_queues@.len() && #[trigger] rows(sem_wait_queues@)[qw].contains(tid);
                assert(qs[qw].contains(tid));
                assert((tid as int) as usize == tid);
                assert(qs[qw].contains((tid as int) as usize));
                assert(sem_involved(al, qs, tid as int));
            }
            assert(holds || waits <==> sem_involved(al, qs, tid as int));
        }
        if holds || waits {
            all_tids.push(tid);
        }
        tid = tid + 1;
    }
    if !contains_tid(&all_tids, current_tid) {
        all_tids.push(current_tid);
    }
    proof {
        assert(all_tids@ == sem_threads(al, qs, current_tid));
        lemma_sem_threads_unique(al, qs, current_tid);
    }
    all_tids
}

/// Banker's-algorithm based deadlock check for a semaphore request, taking
/// the threads already blocked in the wait queues into account.
///
/// `sem_available[j]` is the count of semaphore `j`, `sem_allocation[t][j]`
/// the units of it thread `t` holds, `sem_wait_queues[j]` the threads waiting
/// for it. The threads taking part are those that hold a unit or wait, and
/// the requesting thread `current_tid`, which asks for a unit of `sem_id`.
/// The result says whether every one of them can still run to completion;
/// with no semaphore it is `true`.
pub fn check_semaphore_deadlock_with_queues(
    sem_count: usize,
    current_tid: usize,
    sem_id: usize,
    sem_available: &[isize],
    sem_allocation: &[Vec<usize>],
    sem_wait_queues: &[Vec<usize>],
) -> (safe: bool)
    requires
        forall|j: int|
            0 <= j < sem_count ==> sem_work(sem_count, sem_available@)[j] + column_total(
                sem_holdings(
                    sem_count,
                    rows(sem_allocation@),
                    sem_threads(rows(sem_allocation@), rows(sem_wait_queues@), current_tid),
                ),
                j,
            ) <= usize::MAX,
    ensures
        ((forall|q: int| 0 <= q < sem_wait_queues@.len() ==> (#[trigger] sem_wait_queues@[q])@.len()
            == 0) && sem_id < sem_count && sem_id < sem_available@.len() && sem_available@[sem_id as int]
            > 0) ==> safe,
        safe == (sem_count == 0 || safe_state(
            sem_work(sem_count, sem_available@),
            sem_holdings(
                sem_count,
                rows(sem_allocation@),
                sem_threads(rows(sem_allocation@), rows(sem_wait_queues@), current_tid),
            ),
            sem_request(
                sem_count,
                rows(sem_wait_queues@),
                sem_threads(rows(sem_allocation@), rows(sem_wait_queues@), current_tid),
                current_tid,
                sem_id,
            ),
        )),
{
    let rows_count: usize = sem_allocation.len();
    proof {
        if (forall|q: int| 0 <= q < sem_wait_queues@.len() ==> (#[trigger] sem_wait_queues@[q])@.len()
            == 0) && sem_id < sem_count && sem_id < sem_available@.len() && sem_available@[sem_id as int]
            > 0 {
            assert forall|q: int| 0 <= q < rows(sem_wait_queues@).len() implies (#[trigger] rows(
                sem_wait_queues@,
            )[q]).len() == 0 by {
                assert(rows(sem_wait_queues@)[q] == sem_wait_queues@[q]@);
            }
            assert(rows(sem_allocation@).len() == rows_count);
            lemma_free_unit_request_is_safe(
                sem_count,
                current_tid,
                sem_id,
                sem_available@,
                rows(sem_allocation@),
                rows(sem_wait_queues@),
            );
        }
    }
    if sem_count == 0 {
        return true;
    }
    let ghost al = rows(sem_allocation@);
    let ghost qs = rows(sem_wait_queues@);
    // All threads with allocations or in some wait queue, plus the current one.
    let all_tids: Vec<usize> = semaphore_threads(sem_allocation, sem_wait_queues, current_tid);
    let ghost tids = all_tids@;
    let n: usize = all_tids.len();
    proof {
        assert(tids.len() == n);
        lemma_tid_rows_unique(tids);
    }
    if n == 0 {
        return true;
    }
    let tid_to_idx: BTreeMap<usize, usize> = tid_index_map(&all_tids);
    let ghost rows_of = tid_rows(tids);
    // allocation[i][j] = units of semaphore j held by thread i
    let mut allocation = zero_matrix(n, sem_count);
    let mut tid: usize = 0;
    while tid < sem_allocation.len()
        invariant
            tid <= sem_allocation.len(),
            al == rows(sem_allocation@),
            tids == all_tids@,
            n == tids.len(),
            rows_of == tid_rows(tids),
            tid_to_idx@ == rows_of,
            forall|i: int| 0 <= i < tids.len() ==> #[trigger] rows_of[tids[i]] == i,
            forall|t: usize| #[trigger] rows_of.contains_key(t) <==> tids.contains(t),
            allocation.len() == n,
            forall|i: int| 0 <= i < n ==> (#[trigger] allocation@[i]).len() == sem_count,
            forall|i: int, jj: int|
                0 <= i < n && 0 <= jj < sem_count ==> #[trigger] allocation@[i]@[jj] == if tids[i]
                    < tid {
                    entry(al, tids[i] as int, jj) as usize
                } else {
                    0usize
                },
        decreases sem_allocation.len() - tid,
    {
        let alloc_vec = &sem_allocation[tid];
        proof {
            assert(al[tid as int] == alloc_vec@);
        }
        if let Some(idx) = row_of_tid(&tid_to_idx, tid) {
            proof {
                assert(tids.contains(tid));
                let p: int = tids.index_of(tid);
                assert(rows_of[tids[p]] == p);
            }
            let mut j: usize = 0;
            while j < alloc_vec.len()
                invariant
                    j <= alloc_vec.len(),
                    alloc_vec@ == al[tid as int],
                    tid < sem_allocation.len(),
                    al.len() == sem_allocation.len(),
                    idx < n,
                    tids[idx as int] == tid,
                    tids == all_tids@,
                    n == tids.len(),
                    forall|i: int| 0 <= i < tids.len() ==> #[trigger] rows_of[tids[i]] == i,
                    allocation.len() == n,
                    forall|i: int| 0 <= i < n ==> (#[trigger] allocation@[i]).len() == sem_count,
                    forall|i: int, jj: int|
                        0 <= i < n && 0 <= jj < sem_count ==> #[trigger] allocation@[i]@[jj] == if tids[i]
                            < tid || (i == idx && jj < j) {
                            entry(al, tids[i] as int, jj) as usize
                        } else {
                            0usize
                        },
                decreases alloc_vec.len() - j,
            {
                let count: usize = alloc_vec[j];
                let ghost before = allocation@;
                if j < sem_count && count > 0 {
                    allocation[idx].set(j, count);
                }
                proof {
                    assert forall|i: int, jj: int|
                        0 <= i < n && 0 <= jj < sem_count implies #[trigger] allocation@[i]@[jj]
                        == if tids[i] < tid || (i == idx && jj < j + 1) {
                        entry(al, tids[i] as int, jj) as usize
                    } else {
                        0usize
                    } by {
                        assert(before[i]@[jj] == if tids[i] < tid || (i == idx && jj < j) {
                            entry(al, tids[i] as int, jj) as usize
                        } else {
                            0usize
                        });
                        if i == idx {
                            assert(tids[i] == tid);
                        }
                    }
                }
                j = j + 1;
            }
            proof {
                assert forall|i: int, jj: int|
                    0 <= i < n && 0 <= jj < sem_count implies #[trigger] allocation@[i]@[jj]
                    == if tids[i] < tid + 1 {
                    entry(al, tids[i] as int, jj) as usize
                } else {
                    0usize
                } by {
                    if i == idx {
                        assert(tids[i] == tid);
                    } else if tids[i] == tid {
                        assert(rows_of[tids[i]] == i);
                    }
                }
            }
        } else {
            proof {
                assert forall|i: int, jj: int|
                    0 <= i < n && 0 <= jj < sem_count implies #[trigger] allocation@[i]@[jj]
                    == if tids[i] < tid + 1 {
                    entry(al, tids[i] as int, jj) as usize
                } else {
                    0usize
                } by {
                    assert(tids[i] != tid) by {
                        assert(tids.contains(tids[i]));
                    }
                }
            }
        }
        tid = tid + 1;
    }
    // request[i][j] = units thread i is currently requesting (waiting for)
    let mut request = zero_matrix(n, sem_count);
    if let Some(current_idx) = row_of_tid(&tid_to_idx, current_tid) {
        if sem_id < sem_count {
            request[current_idx].set(sem_id, 1);
        }
    }
    let mut sem_j: usize = 0;
    while sem_j < sem_wait_queues.len()
        invariant
            sem_j <= sem_wait_queues.len(),
            qs == rows(sem_wait_queues@),
            tids == all_tids@,
            n == tids.len(),
            tids.no_duplicates(),
            rows_of == tid_rows(tids),
            tid_to_idx@ == rows_of,
            forall|i: int| 0 <= i < tids.len() ==> #[trigger] rows_of[tids[i]] == i,
            forall|t: usize| #[trigger] rows_of.contains_key(t) <==> tids.contains(t),
            request.len() == n,
            forall|i: int| 0 <= i < n ==> (#[trigger] request@[i]).len() == sem_count,
            forall|i: int, jj: int|
                0 <= i < n && 0 <= jj < sem_count ==> #[trigger] request@[i]@[jj] == if (tids[i]
                    == current_tid && jj == sem_id) || (jj < sem_j && qs[jj].contains(tids[i])) {
                    1usize
                } else {
                    0usize
                },
        decreases sem_wait_queues.len() - sem_j,
    {
        let queue = &sem_wait_queues[sem_j];
        proof {
            assert(qs[sem_j as int] == queue@);
        }
        let mut p: usize = 0;
        while p < queue.len()
            invariant
                p <= queue.len(),
                sem_j < sem_wait_queues.len(),
                qs.len() == sem_wait_queues.len(),
                queue@ == qs[sem_j as int],
                tids == all_tids@,
                n == tids.len(),
                tids.no_duplicates(),
                tid_to_idx@ == rows_of,
                forall|i: int| 0 <= i < tids.len() ==> #[trigger] rows_of[tids[i]] == i,
                forall|t: usize| #[trigger] rows_of.contains_key(t) <==> tids.contains(t),
                request.len() == n,
                forall|i: int| 0 <= i < n ==> (#[trigger] request@[i]).len() == sem_count,
                forall|i: int, jj: int|
                    0 <= i < n && 0 <= jj < sem_count ==> #[trigger] request@[i]@[jj] == if (tids[i]
                        == current_tid && jj == sem_id) || (jj < sem_j && qs[jj].contains(tids[i]))
                        || (jj == sem_j && queue@.take(p as int).contains(tids[i])) {
                        1usize
                    } else {
                        0usize
                    },
            decreases queue.len() - p,
        {
            let waiting: usize = queue[p];
            let ghost before = request@;
            let found = row_of_tid(&tid_to_idx, waiting);
            if let Some(idx) = found {
                if sem_j < sem_count {
                    request[idx].set(sem_j, 1);
                }
            }
            proof {
                assert(queue@.take(p + 1) =~= queue@.take(p as int).push(waiting));
                assert forall|i: int, jj: int|
                    0 <= i < n && 0 <= jj < sem_count implies #[trigger] request@[i]@[jj] == if (
                    tids[i] == current_tid && jj == sem_id) || (jj < sem_j && qs[jj].contains(
                        tids[i],
                    )) || (jj == sem_j && queue@.take(p + 1).contains(tids[i])) {
                    1usize
                } else {
                    0usize
                } by {
                    assert(before[i]@[jj] == if (tids[i] == current_tid && jj == sem_id) || (jj
                        < sem_j && qs[jj].contains(tids[i])) || (jj == sem_j && queue@.take(
                        p as int,
                    ).contains(tids[i])) {
                        1usize
                    } else {
                        0usize
                    });
                    let pre = queue@.take(p as int);
                    if pre.contains(tids[i]) {
                        let w: int = pre.index_of(tids[i]);
                        assert(queue@.take(p + 1)[w] == tids[i]);
                    }
                    if queue@.take(p + 1).contains(tids[i]) && tids[i] != waiting {
                        let w: int = queue@.take(p + 1).index_of(tids[i]);
                        assert(pre[w] == tids[i]);
                    }
                    if tids[i] == waiting {
                        assert(queue@.take(p + 1)[p as int] == waiting);
                        assert(tids.contains(tids[i]));
                    }
                    if found is Some {
                        let idx: usize = found->0;
                        assert(tids.contains(waiting));
                        let w: int = tids.index_of(waiting);
                        assert(rows_of[tids[w]] == w);
                    }
                }
            }
            p = p + 1;
        }
        proof {
            assert(queue@.take(queue@.len() as int) =~= queue@);
        }
        sem_j = sem_j + 1;
    }
    let mut available: Vec<usize> = Vec::new();
    let mut j: usize = 0;
    while j < sem_count
        invariant
            j <= sem_count,
            available@ =~= sem_work(sem_count, sem_available@).take(j as int),
        decreases sem_count - j,
    {
        if j < sem_available.len() && sem_available[j] > 0 {
            available.push(sem_available[j] as usize);
        } else {
            available.push(0);
        }
        j = j + 1;
    }
    proof {
        let hd = sem_holdings(sem_count, al, tids);
        let rq = sem_request(sem_count, qs, tids, current_tid, sem_id);
        assert forall|i: int| 0 <= i < n implies #[trigger] rows(allocation@)[i] =~= hd[i] by {
            assert forall|jj: int| 0 <= jj < sem_count implies rows(allocation@)[i][jj] == hd[i][jj] by {
                assert(allocation@[i]@[jj] == entry(al, tids[i] as int, jj) as usize) by {
                    assert(tids.contains(tids[i]));
                    if tids[i] >= sem_allocation.len() {
                        assert(entry(al, tids[i] as int, jj) == 0);
                    }
                }
            }
        }
        assert(rows(allocation@) =~= hd);
        assert forall|i: int| 0 <= i < n implies #[trigger] rows(request@)[i] =~= rq[i] by {}
        assert(rows(request@) =~= rq);
        assert(available@ =~= sem_work(sem_count, sem_available@));
    }
    is_safe(&available, &allocation, &request)
}

/// Whether, for every one of the `sem_count` semaphores, the free units and
/// the units held by the threads taking part in the semaphore check add up
/// to no more than `usize::MAX`: the check can then run without overflow.
pub fn check_semaphore_units_fit(
    sem_count: usize,
    current_tid: usize,
    sem_available: &[isize],
    sem_allocation: &[Vec<usize>],
    sem_wait_queues: &[Vec<usize>],
) -> (fits: bool)
    ensures
        fits == forall|j: int|
            0 <= j < sem_count ==> sem_work(sem_count, sem_available@)[j] + column_total(
                sem_holdings(
                    sem_count,
                    rows(sem_allocation@),
                    sem_threads(rows(sem_allocation@), rows(sem_wait_queues@), current_tid),
                ),
                j,
            ) <= usize::MAX,
{
    let tids: Vec<usize> = semaphore_threads(sem_allocation, sem_wait_queues, current_tid);
    let n: usize = tids.len();
    let ghost al = rows(sem_allocation@);
    let ghost hd = sem_holdings(sem_count, al, tids@);
    let ghost work = sem_work(sem_count, sem_available@);
    proof {
        lemma_all_threads_facts(n as nat);
    }
    let mut j: usize = 0;
    while j < sem_count
        invariant
            j <= sem_count,
            n == tids@.len(),
            hd.len() == n,
            al == rows(sem_allocation@),
            hd == sem_holdings(sem_count, al, tids@),
            tids@ == sem_threads(al, rows(sem_wait_queues@), current_tid),
            work == sem_work(sem_count, sem_available@),
            all_threads(n as nat).no_duplicates(),
            forall|i: int| 0 <= i < n ==> #[trigger] all_threads(n as nat).contains(i),
            forall|jj: int| 0 <= jj < j ==> work[jj] + column_total(hd, jj) <= usize::MAX,
        decreases sem_count - j,
    {
        let mut acc: usize = if j < sem_available.len() && sem_available[j] > 0 {
            sem_available[j] as usize
        } else {
            0
        };
        let mut i: usize = 0;
        while i < n
            invariant
                i <= n,
                j < sem_count,
                n == tids@.len(),
                hd.len() == n,
                al == rows(sem_allocation@),
                hd == sem_holdings(sem_count, al, tids@),
                tids@ == sem_threads(al, rows(sem_wait_queues@), current_tid),
                work == sem_work(sem_count, sem_available@),
                acc == work[j as int] + released(hd, all_threads(i as nat), j as int),
                all_threads(n as nat).no_duplicates(),
                forall|ii: int| 0 <= ii < n ==> #[trigger] all_threads(n as nat).contains(ii),
            decreases n - i,
        {
            let e: usize = matrix_entry(sem_allocation, tids[i], j);
            proof {
                assert(entry(hd, i as int, j as int) == e);
                assert(all_threads((i + 1) as nat).drop_last() =~= all_threads(i as nat));
                let a = all_threads((i + 1) as nat);
                assert forall|k: int| 0 <= k < a.len() implies all_threads(n as nat).contains(
                    #[trigger] a[k],
                ) by {
                    assert(a[k] == k);
                }
                assert(a.no_duplicates()) by {
                    assert forall|p: int, q: int|
                        0 <= p < a.len() && 0 <= q < a.len() && p != q implies a[p] != a[q] by {
                        assert(a[p] == p);
                        assert(a[q] == q);
                    }
                }
                lemma_released_subset(hd, a, all_threads(n as nat), j as int);
            }
            match acc.checked_add(e) {
                Some(v) => {
                    acc = v;
                },
                None => {
                    proof {
                        assert(released(hd, all_threads((i + 1) as nat), j as int) == released(
                            hd,
                            all_threads(i as nat),
                            j as int,
                        ) + e);
                        assert(all_threads(n as nat) == all_threads(hd.len()));
                        assert(work[j as int] + column_total(hd, j as int) > usize::MAX);
                    }
                    return false;
                },
            }
            i = i + 1;
        }
        proof {
            assert(all_threads(i as nat) =~= all_threads(hd.len()));
        }
        j = j + 1;
    }
    true
}

/// With nobody waiting on any semaphore, the semaphore check refuses a
/// request exactly when no unit of the semaphore is free and the other
/// threads taking part hold none of it either.
pub proof fn lemma_semaphore_check_without_waiters(
    sem_count: usize,
    current_tid: usize,
    sem_id: usize,
    sem_available: Seq<isize>,
    alloc: Seq<Seq<usize>>,
    queues: Seq<Seq<usize>>,
)
    requires
        alloc.len() <= usize::MAX,
        forall|q: int| 0 <= q < queues.len() ==> (#[trigger] queues[q]).len() == 0,
    ensures
        ({
            let tids = sem_threads(alloc, queues, current_tid);
            let hd = sem_holdings(sem_count, alloc, tids);
            let work = sem_work(sem_count, sem_available);
            safe_state(work, hd, sem_request(sem_count, queues, tids, current_tid, sem_id)) == (
            sem_id >= sem_count || 1 <= work[sem_id as int] + released(
                hd,
                all_but(tids.len(), tids.index_of(current_tid)),
                sem_id as int,
            ))
        }),
{
    let tids = sem_threads(alloc, queues, current_tid);
    let hd = sem_holdings(sem_count, alloc, tids);
    let work = sem_work(sem_count, sem_available);
    let rq = sem_request(sem_count, queues, tids, current_tid, sem_id);
    lemma_sem_threads_unique(alloc, queues, current_tid);
    let c: int = tids.index_of(current_tid);
    assert forall|i: int, j: int| 0 <= i < hd.len() && 0 <= j < work.len() implies #[trigger] entry(
        rq,
        i,
        j,
    ) == if i == c && j == sem_id {
        1int
    } else {
        0int
    } by {
        if j < queues.len() {
            assert(!queues[j].contains(tids[i]));
        }
        if tids[i] == current_tid {
            assert(tids[c] == current_tid);
        }
    }
    lemma_single_request_safe(work, hd, rq, c, sem_id as int);
}

/// The semaphore check reads a count that is not positive as no free unit:
/// replacing every negative count by 0 changes neither what it computes nor
/// the bound it needs.
pub proof fn lemma_negative_counts_read_as_zero(
    sem_count: usize,
    sem_available: Seq<isize>,
    clamped: Seq<isize>,
)
    requires
        clamped.len() == sem_available.len(),
        forall|j: int|
            0 <= j < sem_available.len() ==> #[trigger] clamped[j] == if sem_available[j] > 0 {
                sem_available[j]
            } else {
                0isize
            },
    ensures
        sem_work(sem_count, clamped) == sem_work(sem_count, sem_available),
{
    assert(sem_work(sem_count, clamped) =~= sem_work(sem_count, sem_available));
}

/// The work vector of the semaphore check holds the free units of each of
/// the `sem_count` semaphores: its count when that is positive, and none
/// when the count is zero, negative or missing.
pub proof fn lemma_sem_work_is_free_units(sem_count: usize, sem_available: Seq<isize>)
    ensures
        sem_work(sem_count, sem_available).len() == sem_count,
        forall|j: int|
            0 <= j < sem_count ==> (#[trigger] sem_work(sem_count, sem_available)[j]) as int == if j
                < sem_available.len() && sem_available[j] > 0 {
                sem_available[j] as int
            } else {
                0int
            },
{
}

/// With nobody waiting, a request for a semaphore that has a free unit is
/// always judged safe, whatever the threads hold.
pub proof fn lemma_free_unit_request_is_safe(
    sem_count: usize,
    current_tid: usize,
    sem_id: usize,
    sem_available: Seq<isize>,
    alloc: Seq<Seq<usize>>,
    queues: Seq<Seq<usize>>,
)
    requires
        alloc.len() <= usize::MAX,
        forall|q: int| 0 <= q < queues.len() ==> (#[trigger] queues[q]).len() == 0,
        sem_id < sem_count,
        sem_id < sem_available.len(),
        sem_available[sem_id as int] > 0,
    ensures
        ({
            let tids = sem_threads(alloc, queues, current_tid);
            safe_state(
                sem_work(sem_count, sem_available),
                sem_holdings(sem_count, alloc, tids),
                sem_request(sem_count, queues, tids, current_tid, sem_id),
            )
        }),
{
    let tids = sem_threads(alloc, queues, current_tid);
    let hd = sem_holdings(sem_count, alloc, tids);
    lemma_semaphore_check_without_waiters(sem_count, current_tid, sem_id, sem_available, alloc, queues);
    lemma_sem_work_is_free_units(sem_count, sem_available);
    lemma_released_nonneg(hd, all_but(tids.len(), tids.index_of(current_tid)), sem_id as int);
}

} // verus!
