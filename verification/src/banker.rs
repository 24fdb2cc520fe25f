//! Banker's-algorithm safety check over resource matrices.
use vstd::prelude::*;

verus! {

/// The matrix that a slice of rows stands for.
pub open spec fn rows(m: Seq<Vec<usize>>) -> Seq<Seq<usize>> {
    m.map_values(|r: Vec<usize>| r@)
}

/// Entry `(i, j)` of a matrix given row by row; a row or a column that is
/// missing reads as 0.
pub open spec fn entry(m: Seq<Seq<usize>>, i: int, j: int) -> int {
    if 0 <= i < m.len() && 0 <= j < m[i].len() {
        m[i][j] as int
    } else {
        0
    }
}

/// Units of resource `j` handed back once every thread listed in `done` has
/// finished and returned what it holds.
pub open spec fn released(alloc: Seq<Seq<usize>>, done: Seq<int>, j: int) -> int
    decreases done.len(),
{
    if done.len() == 0 {
        0
    } else {
        released(alloc, done.drop_last(), j) + entry(alloc, done.last(), j)
    }
}

/// Units of resource `j` free once the threads in `done` have finished.
pub open spec fn work_after(
    available: Seq<usize>,
    alloc: Seq<Seq<usize>>,
    done: Seq<int>,
    j: int,
) -> int {
    available[j] + released(alloc, done, j)
}

/// Thread `i` can run to completion once the threads in `done` have finished:
/// what it may still ask for of every resource is free by then.
pub open spec fn can_finish(
    available: Seq<usize>,
    alloc: Seq<Seq<usize>>,
    need: Seq<Seq<usize>>,
    done: Seq<int>,
    i: int,
) -> bool {
    forall|j: int|
        0 <= j < available.len() ==> #[trigger] entry(need, i, j) <= work_after(
            available,
            alloc,
            done,
            j,
        )
}

/// `order` lists every thread (a row of `alloc`) exactly once, and each
/// thread in it can finish once those before it have.
pub open spec fn is_safe_sequence(
    available: Seq<usize>,
    alloc: Seq<Seq<usize>>,
    need: Seq<Seq<usize>>,
    order: Seq<int>,
) -> bool {
    &&& order.no_duplicates()
    &&& forall|k: int| 0 <= k < order.len() ==> 0 <= #[trigger] order[k] < alloc.len()
    &&& forall|i: int| 0 <= i < alloc.len() ==> #[trigger] order.contains(i)
    &&& forall|k: int|
        0 <= k < order.len() ==> can_finish(available, alloc, need, order.take(k), #[trigger] order[k])
}

/// The state is safe: some order lets every thread run to completion.
pub open spec fn safe_state(
    available: Seq<usize>,
    alloc: Seq<Seq<usize>>,
    need: Seq<Seq<usize>>,
) -> bool {
    exists|order: Seq<int>| is_safe_sequence(available, alloc, need, order)
}

/// The threads `0 .. n` in order.
pub open spec fn all_threads(n: nat) -> Seq<int> {
    Seq::new(n, |i: int| i)
}

/// Allocation of resource `j` summed over every thread.
pub open spec fn column_total(alloc: Seq<Seq<usize>>, j: int) -> int {
    released(alloc, all_threads(alloc.len()), j)
}

/// Number of entries still `false`.
pub open spec fn count_false(s: Seq<bool>) -> nat
    decreases s.len(),
{
    if s.len() == 0 {
        0
    } else {
        count_false(s.drop_last()) + if s.last() {
            0nat
        } else {
            1nat
        }
    }
}

pub(crate) proof fn lemma_released_nonneg(alloc: Seq<Seq<usize>>, done: Seq<int>, j: int)
    ensures
        released(alloc, done, j) >= 0,
    decreases done.len(),
{
    if done.len() > 0 {
        lemma_released_nonneg(alloc, done.drop_last(), j);
    }
}

proof fn lemma_released_push(alloc: Seq<Seq<usize>>, done: Seq<int>, i: int, j: int)
    ensures
        released(alloc, done.push(i), j) == released(alloc, done, j) + entry(alloc, i, j),
{
    assert(done.push(i).drop_last() =~= done);
}

/// Taking one thread out of `b` lowers the sum by exactly its share.
proof fn lemma_released_remove(alloc: Seq<Seq<usize>>, b: Seq<int>, idx: int, j: int)
    requires
        0 <= idx < b.len(),
    ensures
        released(alloc, b, j) == released(alloc, b.remove(idx), j) + entry(alloc, b[idx], j),
    decreases b.len(),
{
    if idx == b.len() - 1 {
        assert(b.remove(idx) =~= b.drop_last());
    } else {
        let c = b.drop_last();
        lemma_released_remove(alloc, c, idx, j);
        assert(b.remove(idx).drop_last() =~= c.remove(idx));
        assert(b.remove(idx).last() == b.last());
    }
}

/// Threads listed once each in `a`, all of them in `b`, hand back no more
/// than the threads of `b`.
pub(crate) proof fn lemma_released_subset(alloc: Seq<Seq<usize>>, a: Seq<int>, b: Seq<int>, j: int)
    requires
        a.no_duplicates(),
        b.no_duplicates(),
        forall|k: int| 0 <= k < a.len() ==> b.contains(#[trigger] a[k]),
    ensures
        released(alloc, a, j) <= released(alloc, b, j),
    decreases a.len(),
{
    if a.len() == 0 {
        lemma_released_nonneg(alloc, b, j);
    } else {
        let x = a.last();
        let a2 = a.drop_last();
        assert(b.contains(a[a.len() - 1]));
        let idx: int = b.index_of(x);
        let b2 = b.remove(idx);
        assert forall|p: int, q: int| 0 <= p < b2.len() && 0 <= q < b2.len() && p != q implies b2[p]
            != b2[q] by {
            let pp: int = if p < idx {
                p
            } else {
                p + 1
            };
            let qq: int = if q < idx {
                q
            } else {
                q + 1
            };
            assert(b2[p] == b[pp]);
            assert(b2[q] == b[qq]);
        }
        assert forall|k: int| 0 <= k < a2.len() implies b2.contains(#[trigger] a2[k]) by {
            assert(a2[k] == a[k]);
            assert(b.contains(a[k]));
            let p: int = b.index_of(a[k]);
            assert(a[k] != x);
            if p < idx {
                assert(b2[p] == a2[k]);
            } else {
                assert(p != idx);
                assert(b2[p - 1] == a2[k]);
            }
        }
        lemma_released_subset(alloc, a2, b2, j);
        lemma_released_remove(alloc, b, idx, j);
    }
}

/// Every thread of `done` is one of the threads `0 .. n`, so `done` hands
/// back no more than all threads together.
proof fn lemma_released_le_total(alloc: Seq<Seq<usize>>, done: Seq<int>, j: int)
    requires
        done.no_duplicates(),
        forall|k: int| 0 <= k < done.len() ==> 0 <= #[trigger] done[k] < alloc.len(),
    ensures
        released(alloc, done, j) <= column_total(alloc, j),
{
    let all = all_threads(alloc.len());
    assert forall|k: int| 0 <= k < done.len() implies all.contains(#[trigger] done[k]) by {
        assert(all[done[k]] == done[k]);
    }
    lemma_released_subset(alloc, done, all, j);
}

proof fn lemma_count_false_update(s: Seq<bool>, i: int)
    requires
        0 <= i < s.len(),
        !s[i],
    ensures
        count_false(s.update(i, true)) + 1 == count_false(s),
    decreases s.len(),
{
    if i == s.len() - 1 {
        assert(s.update(i, true).drop_last() =~= s.drop_last());
    } else {
        lemma_count_false_update(s.drop_last(), i);
        assert(s.update(i, true).drop_last() =~= s.drop_last().update(i, true));
    }
}

/// Adding a thread not yet listed keeps a list of threads `0 .. n` free of
/// repetition.
proof fn lemma_push_fresh(order: Seq<int>, i: int, n: int)
    requires
        order.no_duplicates(),
        forall|k: int| 0 <= k < order.len() ==> 0 <= #[trigger] order[k] < n,
        !order.contains(i),
        0 <= i < n,
    ensures
        order.push(i).no_duplicates(),
        forall|k: int| 0 <= k < order.len() + 1 ==> 0 <= #[trigger] order.push(i)[k] < n,
{
    let new_order = order.push(i);
    assert forall|k: int| 0 <= k < new_order.len() implies 0 <= #[trigger] new_order[k] < n by {
        if k < order.len() {
            assert(new_order[k] == order[k]);
        }
    }
    assert forall|p: int, q: int|
        0 <= p < new_order.len() && 0 <= q < new_order.len() && p != q implies new_order[p]
            != new_order[q] by {
        if p < order.len() {
            assert(new_order[p] == order[p]);
        }
        if q < order.len() {
            assert(new_order[q] == order[q]);
        }
    }
}

/// The first position of `s`, from `from` on, whose thread is not in `order`.
proof fn lemma_first_missing(s: Seq<int>, order: Seq<int>, from: int, t: int) -> (k: int)
    requires
        0 <= from <= t < s.len(),
        !order.contains(s[t]),
        forall|p: int| 0 <= p < from ==> order.contains(#[trigger] s[p]),
    ensures
        0 <= k < s.len(),
        !order.contains(s[k]),
        forall|p: int| 0 <= p < k ==> order.contains(#[trigger] s[p]),
    decreases t - from,
{
    if !order.contains(s[from]) {
        from
    } else {
        lemma_first_missing(s, order, from + 1, t)
    }
}

/// Once every unfinished thread is blocked even with what the finished ones
/// hand back, and one thread is unfinished, no order lets all threads finish.
proof fn lemma_stuck_not_safe(
    available: Seq<usize>,
    alloc: Seq<Seq<usize>>,
    need: Seq<Seq<usize>>,
    order: Seq<int>,
    t: int,
)
    requires
        order.no_duplicates(),
        0 <= t < alloc.len(),
        !order.contains(t),
        forall|i: int|
            0 <= i < alloc.len() && !order.contains(i) ==> !can_finish(
                available,
                alloc,
                need,
                order,
                i,
            ),
    ensures
        !safe_state(available, alloc, need),
{
    if safe_state(available, alloc, need) {
        let s = choose|s: Seq<int>| is_safe_sequence(available, alloc, need, s);
        assert(s.contains(t));
        let pt: int = s.index_of(t);
        let k: int = lemma_first_missing(s, order, 0, pt);
        let pre = s.take(k);
        assert forall|p: int| 0 <= p < pre.len() implies order.contains(#[trigger] pre[p]) by {
            assert(pre[p] == s[p]);
        }
        assert(pre.no_duplicates()) by {
            assert forall|p: int, q: int|
                0 <= p < pre.len() && 0 <= q < pre.len() && p != q implies pre[p] != pre[q] by {
                assert(pre[p] == s[p]);
                assert(pre[q] == s[q]);
            }
        }
        assert(can_finish(available, alloc, need, pre, s[k]));
        assert forall|j: int| 0 <= j < available.len() implies #[trigger] entry(need, s[k], j)
            <= work_after(available, alloc, order, j) by {
            lemma_released_subset(alloc, pre, order, j);
        }
        assert(can_finish(available, alloc, need, order, s[k]));
    }
}

/// Entry `(i, j)` of a matrix given row by row, 0 where it is missing.
pub(crate) fn matrix_entry(m: &[Vec<usize>], i: usize, j: usize) -> (v: usize)
    ensures
        v == entry(rows(m@), i as int, j as int),
{
    if i < m.len() {
        let row = &m[i];
        if j < row.len() {
            return row[j];
        }
    }
    0
}

/// Whether every resource that thread `i` may still ask for is free in `work`.
fn row_fits(need: &[Vec<usize>], i: usize, work: &Vec<usize>) -> (fits: bool)
    ensures
        fits == forall|j: int|
            0 <= j < work.len() ==> #[trigger] entry(rows(need@), i as int, j) <= work[j],
{
    let m: usize = work.len();
    let mut j: usize = 0;
    while j < m
        invariant
            m == work.len(),
            j <= m,
            forall|jj: int| 0 <= jj < j ==> #[trigger] entry(rows(need@), i as int, jj) <= work[jj],
        decreases m - j,
    {
        if matrix_entry(need, i, j) > work[j] {
            return false;
        }
        j = j + 1;
    }
    true
}

/// Adds what thread `i` holds back to `work`.
fn release_row(work: &mut Vec<usize>, allocation: &[Vec<usize>], i: usize)
    requires
        forall|j: int|
            0 <= j < old(work).len() ==> old(work)[j] + entry(rows(allocation@), i as int, j)
                <= usize::MAX,
    ensures
        final(work).len() == old(work).len(),
        forall|j: int|
            0 <= j < old(work).len() ==> #[trigger] final(work)[j] == old(work)[j] + entry(
                rows(allocation@),
                i as int,
                j,
            ),
{
    let m: usize = work.len();
    let mut j: usize = 0;
    while j < m
        invariant
            m == work.len(),
            m == old(work).len(),
            j <= m,
            forall|jj: int|
                0 <= jj < m ==> old(work)[jj] + entry(rows(allocation@), i as int, jj)
                    <= usize::MAX,
            forall|jj: int|
                0 <= jj < j ==> #[trigger] work[jj] == old(work)[jj] + entry(
                    rows(allocation@),
                    i as int,
                    jj,
                ),
            forall|jj: int| j <= jj < m ==> #[trigger] work[jj] == old(work)[jj],
        decreases m - j,
    {
        let a: usize = matrix_entry(allocation, i, j);
        let w: usize = work[j] + a;
        work.set(j, w);
        j = j + 1;
    }
}

/// Banker's algorithm safety check.
///
/// `available[j]` is what is free of resource `j`, `allocation[i][j]` what
/// thread `i` holds of it, `need[i][j]` what thread `i` may still ask for; a
/// missing row or column counts as 0. There is one thread per row of
/// `allocation`. The result is whether some order lets every thread run to
/// completion, each one handing back what it holds when it is done.
pub fn is_safe(available: &[usize], allocation: &[Vec<usize>], need: &[Vec<usize>]) -> (safe: bool)
    requires
        forall|j: int|
            0 <= j < available@.len() ==> available@[j] + column_total(rows(allocation@), j)
                <= usize::MAX,
    ensures
        safe == safe_state(available@, rows(allocation@), rows(need@)),
{
    let ghost av = available@;
    let ghost al = rows(allocation@);
    let ghost nd = rows(need@);
    let n: usize = allocation.len();
    let m: usize = available.len();
    if n == 0 {
        assert(is_safe_sequence(av, al, nd, Seq::<int>::empty()));
        return true;
    }
    let mut work: Vec<usize> = Vec::new();
    let mut j: usize = 0;
    while j < m
        invariant
            m == available.len(),
            j <= m,
            work.len() == j,
            forall|jj: int| 0 <= jj < j ==> #[trigger] work[jj] == available@[jj],
        decreases m - j,
    {
        work.push(available[j]);
        j = j + 1;
    }
    let mut finish: Vec<bool> = Vec::new();
    let mut i: usize = 0;
    while i < n
        invariant
            i <= n,
            finish.len() == i,
            forall|ii: int| 0 <= ii < i ==> !#[trigger] finish[ii],
            count_false(finish@) == i,
        decreases n - i,
    {
        proof {
            assert(finish@.push(false).drop_last() =~= finish@);
        }
        finish.push(false);
        i = i + 1;
    }
    let ghost mut order: Seq<int> = Seq::empty();
    loop
        invariant
            n == allocation.len(),
            n > 0,
            m == available.len(),
            av == available@,
            al == rows(allocation@),
            nd == rows(need@),
            forall|jj: int| 0 <= jj < m ==> av[jj] + column_total(al, jj) <= usize::MAX,
            work.len() == m,
            finish.len() == n,
            order.no_duplicates(),
            forall|k: int| 0 <= k < order.len() ==> 0 <= #[trigger] order[k] < n,
            forall|ii: int| 0 <= ii < n ==> (#[trigger] finish[ii] <==> order.contains(ii)),
            forall|jj: int| 0 <= jj < m ==> #[trigger] work[jj] == work_after(av, al, order, jj),
            forall|k: int|
                0 <= k < order.len() ==> can_finish(av, al, nd, order.take(k), #[trigger] order[k]),
            count_false(finish@) + order.len() == n,
        ensures
            work.len() == m,
            finish.len() == n,
            order.no_duplicates(),
            forall|k: int| 0 <= k < order.len() ==> 0 <= #[trigger] order[k] < n,
            forall|ii: int| 0 <= ii < n ==> (#[trigger] finish[ii] <==> order.contains(ii)),
            forall|k: int|
                0 <= k < order.len() ==> can_finish(av, al, nd, order.take(k), #[trigger] order[k]),
            forall|ii: int|
                0 <= ii < n && !order.contains(ii) ==> !can_finish(av, al, nd, order, ii),
        decreases count_false(finish@),
    {
        let mut progressed = false;
        let ghost start_len: nat = order.len();
        let mut i: usize = 0;
        while i < n
            invariant
                n == allocation.len(),
                m == available.len(),
                i <= n,
                av == available@,
                al == rows(allocation@),
                nd == rows(need@),
                forall|jj: int| 0 <= jj < m ==> av[jj] + column_total(al, jj) <= usize::MAX,
                work.len() == m,
                finish.len() == n,
                order.no_duplicates(),
                forall|k: int| 0 <= k < order.len() ==> 0 <= #[trigger] order[k] < n,
                forall|ii: int| 0 <= ii < n ==> (#[trigger] finish[ii] <==> order.contains(ii)),
                forall|jj: int| 0 <= jj < m ==> #[trigger] work[jj] == work_after(av, al, order, jj),
                forall|k: int|
                    0 <= k < order.len() ==> can_finish(av, al, nd, order.take(k), #[trigger] order[k]),
                count_false(finish@) + order.len() == n,
                progressed ==> order.len() > start_len,
                !progressed ==> order.len() == start_len,
                !progressed ==> forall|ii: int|
                    0 <= ii < i && !order.contains(ii) ==> !can_finish(av, al, nd, order, ii),
            decreases n - i,
        {
            if !finish[i] {
                let fits = row_fits(need, i, &work);
                assert(fits == can_finish(av, al, nd, order, i as int)) by {
                    if fits {
                        assert forall|jj: int| 0 <= jj < av.len() implies #[trigger] entry(
                            nd,
                            i as int,
                            jj,
                        ) <= work_after(av, al, order, jj) by {
                            assert(work[jj] == work_after(av, al, order, jj));
                        }
                    } else {
                        let jj: int = choose|jj: int|
                            0 <= jj < work.len() && !(#[trigger] entry(nd, i as int, jj)
                                <= work[jj]);
                        assert(work[jj] == work_after(av, al, order, jj));
                    }
                }
                if fits {
                    let ghost new_order = order.push(i as int);
                    proof {
                        assert(!order.contains(i as int));
                        assert forall|jj: int| 0 <= jj < m implies work[jj] + entry(
                            al,
                            i as int,
                            jj,
                        ) <= usize::MAX by {
                            lemma_released_push(al, order, i as int, jj);
                            lemma_push_fresh(order, i as int, n as int);
                            lemma_released_le_total(al, new_order, jj);
                            assert(work[jj] == work_after(av, al, order, jj));
                        }
                    }
                    release_row(&mut work, allocation, i);
                    proof {
                        lemma_count_false_update(finish@, i as int);
                    }
                    finish.set(i, true);
                    proof {
                        assert forall|jj: int| 0 <= jj < m implies #[trigger] work[jj]
                            == work_after(av, al, new_order, jj) by {
                            lemma_released_push(al, order, i as int, jj);
                        }
                        lemma_push_fresh(order, i as int, n as int);
                        assert forall|ii: int| 0 <= ii < n implies (#[trigger] finish[ii]
                            <==> new_order.contains(ii)) by {
                            if order.contains(ii) {
                                let p: int = order.index_of(ii);
                                assert(new_order[p] == ii);
                            }
                            if new_order.contains(ii) && ii != i {
                                let p: int = new_order.index_of(ii);
                                assert(p < order.len());
                                assert(order[p] == ii);
                            }
                            if ii == i {
                                assert(new_order[order.len() as int] == ii);
                            }
                        }
                        assert forall|k: int| 0 <= k < new_order.len() implies can_finish(
                            av,
                            al,
                            nd,
                            new_order.take(k),
                            #[trigger] new_order[k],
                        ) by {
                            if k < order.len() {
                                assert(new_order.take(k) =~= order.take(k));
                                assert(new_order[k] == order[k]);
                            } else {
                                assert(new_order.take(k) =~= order);
                            }
                        }
                        order = new_order;
                    }
                    progressed = true;
                }
            }
            i = i + 1;
        }
        if !progressed {
            break;
        }
    }
    let mut all_done = true;
    let mut i: usize = 0;
    while i < n
        invariant
            i <= n,
            finish.len() == n,
            all_done == forall|ii: int| 0 <= ii < i ==> #[trigger] finish[ii],
        decreases n - i,
    {
        if !finish[i] {
            all_done = false;
        }
        i = i + 1;
    }
    proof {
        if all_done {
            assert forall|ii: int| 0 <= ii < al.len() implies #[trigger] order.contains(ii) by {
                assert(finish[ii]);
            }
            assert(is_safe_sequence(av, al, nd, order));
        } else {
            let t: int = choose|t: int| 0 <= t < n && !#[trigger] finish[t];
            lemma_stuck_not_safe(av, al, nd, order, t);
        }
    }
    all_done
}

/// The threads `0 .. n` other than `c`, in order.
pub open spec fn all_but(n: nat, c: int) -> Seq<int> {
    all_threads(n).remove(c)
}

/// When a single thread `c` asks for a single unit of resource `r` and no
/// other thread asks for anything, the state is safe exactly when that unit
/// is free, or will be once the other threads have handed back what they
/// hold.
pub proof fn lemma_single_request_safe(
    available: Seq<usize>,
    alloc: Seq<Seq<usize>>,
    need: Seq<Seq<usize>>,
    c: int,
    r: int,
)
    requires
        0 <= c < alloc.len(),
        0 <= r,
        forall|i: int, j: int|
            0 <= i < alloc.len() && 0 <= j < available.len() ==> #[trigger] entry(need, i, j) == if i
                == c && j == r {
                1int
            } else {
                0int
            },
    ensures
        safe_state(available, alloc, need) == (r >= available.len() || 1 <= available[r]
            + released(alloc, all_but(alloc.len(), c), r)),
{
    let n = alloc.len();
    let all = all_threads(n);
    let others = all_but(n, c);
    assert forall|k: int| 0 <= k < n implies #[trigger] all[k] == k by {}
    assert forall|k: int| 0 <= k < others.len() implies #[trigger] others[k] == if k < c {
        k
    } else {
        k + 1
    } by {}
    assert(others.no_duplicates()) by {
        assert forall|p: int, q: int|
            0 <= p < others.len() && 0 <= q < others.len() && p != q implies others[p]
                != others[q] by {}
    }
    if r >= available.len() || 1 <= available[r] + released(alloc, others, r) {
        let order = others.push(c);
        assert(order.no_duplicates()) by {
            assert forall|p: int, q: int|
                0 <= p < order.len() && 0 <= q < order.len() && p != q implies order[p]
                    != order[q] by {
                if p < others.len() {
                    assert(order[p] == others[p]);
                }
                if q < others.len() {
                    assert(order[q] == others[q]);
                }
            }
        }
        assert forall|k: int| 0 <= k < order.len() implies 0 <= #[trigger] order[k] < alloc.len() by {
            if k < others.len() {
                assert(order[k] == others[k]);
            }
        }
        assert forall|i: int| 0 <= i < alloc.len() implies #[trigger] order.contains(i) by {
            if i < c {
                assert(order[i] == others[i]);
            } else if i > c {
                assert(order[i - 1] == others[i - 1]);
            } else {
                assert(order[order.len() - 1] == c);
            }
        }
        assert forall|k: int| 0 <= k < order.len() implies can_finish(
            available,
            alloc,
            need,
            order.take(k),
            #[trigger] order[k],
        ) by {
            assert forall|j: int| 0 <= j < available.len() implies #[trigger] entry(
                need,
                order[k],
                j,
            ) <= work_after(available, alloc, order.take(k), j) by {
                lemma_released_nonneg(alloc, order.take(k), j);
                if k == order.len() - 1 {
                    assert(order.take(k) =~= others);
                    assert(order[k] == c);
                } else {
                    assert(order[k] == others[k]);
                    assert(order[k] != c);
                }
            }
        }
        assert(is_safe_sequence(available, alloc, need, order));
    } else {
        if safe_state(available, alloc, need) {
            let s = choose|s: Seq<int>| is_safe_sequence(available, alloc, need, s);
            assert(s.contains(c));
            let k: int = s.index_of(c);
            let pre = s.take(k);
            assert(pre.no_duplicates()) by {
                assert forall|p: int, q: int|
                    0 <= p < pre.len() && 0 <= q < pre.len() && p != q implies pre[p] != pre[q] by {
                    assert(pre[p] == s[p]);
                    assert(pre[q] == s[q]);
                }
            }
            assert forall|p: int| 0 <= p < pre.len() implies others.contains(#[trigger] pre[p]) by {
                assert(pre[p] == s[p]);
                let v = pre[p];
                assert(v != c);
                assert(0 <= v < n);
                if v < c {
                    assert(others[v] == v);
                } else {
                    assert(others[v - 1] == v);
                }
            }
            lemma_released_subset(alloc, pre, others, r);
            assert(can_finish(available, alloc, need, pre, s[k]));
            assert(entry(need, c, r) == 1);
        }
    }
}

} // verus!
