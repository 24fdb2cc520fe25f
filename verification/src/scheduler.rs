//! Stride scheduler: the ready queue and the choice of the next task.
use vstd::prelude::*;
use std::collections::VecDeque;

verus! {

/// Stride scale of the scheduler: a pick advances a task's stride by
/// `BIG_STRIDE / priority`, so a smaller priority gives a larger pass and
/// less CPU time.
pub const BIG_STRIDE: usize = 65536;

/// A ready task as the scheduler sees it: the task, kept by the caller
/// under `id`, its stride and its priority.
#[derive(Clone, Copy, PartialEq, Eq, Debug, Structural)]
pub struct ReadyTask {
    pub id: usize,
    pub stride: usize,
    pub priority: usize,
}

/// The pass of a task: `BIG_STRIDE` over its priority, a priority below 2
/// counting as 2.
pub open spec fn pass_of(priority: usize) -> usize {
    (BIG_STRIDE / if priority < 2 {
        2
    } else {
        priority
    }) as usize
}

/// `stride + pass`, wrapping around at `usize::MAX + 1`.
pub open spec fn advanced(stride: usize, pass: usize) -> usize {
    if stride + pass > usize::MAX {
        (stride + pass - usize::MAX - 1) as usize
    } else {
        (stride + pass) as usize
    }
}

/// Task `k` has the smallest stride of `q`, and no task before it has that
/// stride.
pub open spec fn is_first_min(q: Seq<ReadyTask>, k: int) -> bool {
    &&& 0 <= k < q.len()
    &&& forall|p: int| 0 <= p < q.len() ==> q[k].stride <= #[trigger] q[p].stride
    &&& forall|p: int| 0 <= p < k ==> #[trigger] q[p].stride > q[k].stride
}

/// Task `t` after being picked: its stride advanced by its pass.
pub open spec fn picked(t: ReadyTask) -> ReadyTask {
    ReadyTask { stride: advanced(t.stride, pass_of(t.priority)), ..t }
}

/// The ready queue of the stride scheduler.
pub struct TaskManager {
    ready_queue: VecDeque<ReadyTask>,
}

impl View for TaskManager {
    type V = Seq<ReadyTask>;

    closed spec fn view(&self) -> Seq<ReadyTask> {
        self.ready_queue@
    }
}

impl TaskManager {
    /// An empty ready queue.
    pub fn new() -> (m: Self)
        ensures
            m@ == Seq::<ReadyTask>::empty(),
    {
        TaskManager { ready_queue: VecDeque::new() }
    }

    /// Puts a task at the back of the ready queue.
    pub fn add(&mut self, task: ReadyTask)
        ensures
            final(self)@ == old(self)@.push(task),
    {
        self.ready_queue.push_back(task);
    }

    /// Takes the ready task with the smallest stride (the first of them when
    /// several share it) out of the queue, advances its stride by its pass,
    /// and returns it; `None` when the queue is empty.
    pub fn fetch(&mut self) -> (task: Option<ReadyTask>)
        ensures
            old(self)@.len() == 0 ==> task is None && final(self)@ == old(self)@,
            old(self)@.len() > 0 ==> exists|k: int|
                #![trigger old(self)@[k]]
                is_first_min(old(self)@, k) && task == Some(picked(old(self)@[k])) && final(self)@
                    == old(self)@.remove(k),
    {
        if self.ready_queue.len() == 0 {
            return None;
        }
        let ghost q = self.ready_queue@;
        // Find index of the task with the smallest stride.
        let mut min_idx: usize = 0;
        let mut min_stride: usize = self.ready_queue[0].stride;
        let mut idx: usize = 1;
        while idx < self.ready_queue.len()
            invariant
                q == self.ready_queue@,
                1 <= idx <= q.len(),
                min_idx < idx,
                min_stride == q[min_idx as int].stride,
                forall|p: int| 0 <= p < idx ==> min_stride <= #[trigger] q[p].stride,
                forall|p: int| 0 <= p < min_idx ==> #[trigger] q[p].stride > min_stride,
            decreases q.len() - idx,
        {
            let s: usize = self.ready_queue[idx].stride;
            if s < min_stride {
                min_stride = s;
                min_idx = idx;
            }
            idx = idx + 1;
        }
        let task = self.ready_queue.remove(min_idx);
        match task {
            Some(t) => {
                // Advance the chosen task's stride by its pass.
                let prio: usize = if t.priority < 2 {
                    2
                } else {
                    t.priority
                };
                let stride: usize = t.stride.wrapping_add(BIG_STRIDE / prio);
                let chosen = ReadyTask { stride, ..t };
                assert(is_first_min(q, min_idx as int));
                assert(chosen == picked(q[min_idx as int]));
                Some(chosen)
            },
            None => None,
        }
    }
}

/// The spread of strides in a queue: every stride lies within `window` of
/// the smallest.
pub open spec fn strides_within(q: Seq<ReadyTask>, window: int) -> bool {
    forall|p: int, r: int| 0 <= p < q.len() && 0 <= r < q.len() ==> #[trigger] q[p].stride
        - #[trigger] q[r].stride <= window
}

/// A pass is at most half of `BIG_STRIDE`, at least 1 for a priority up to
/// `BIG_STRIDE`, and a higher priority never gets a larger pass.
pub proof fn lemma_pass_bounds(low: usize, high: usize)
    requires
        low <= high,
    ensures
        pass_of(high) <= pass_of(low) <= BIG_STRIDE / 2,
        high <= BIG_STRIDE ==> 1 <= pass_of(high),
{
    let a: int = if low < 2 {
        2
    } else {
        low as int
    };
    let b: int = if high < 2 {
        2
    } else {
        high as int
    };
    assert(2 <= a <= b);
    assert(65536int / b <= 65536int / a) by (nonlinear_arith)
        requires
            2 <= a <= b,
    ;
    assert(65536int / a <= 65536int / 2) by (nonlinear_arith)
        requires
            2 <= a,
    ;
    if high <= BIG_STRIDE {
        assert(1 <= 65536int / b) by (nonlinear_arith)
            requires
                2 <= b <= 65536,
        ;
    }
}

/// Picking the task with the smallest stride and putting it back keeps the
/// strides of the queue within half of `BIG_STRIDE` of each other, as long
/// as no stride wraps around.
pub proof fn lemma_fetch_keeps_strides_close(q: Seq<ReadyTask>, k: int)
    requires
        is_first_min(q, k),
        strides_within(q, (BIG_STRIDE / 2) as int),
        forall|p: int| 0 <= p < q.len() ==> #[trigger] q[p].stride + BIG_STRIDE / 2 <= usize::MAX,
    ensures
        strides_within(q.remove(k).push(picked(q[k])), (BIG_STRIDE / 2) as int),
{
    let t = q[k];
    lemma_pass_bounds(t.priority, t.priority);
    let q2 = q.remove(k).push(picked(t));
    assert(picked(t).stride == t.stride + pass_of(t.priority));
    assert forall|p: int| 0 <= p < q2.len() implies q2[p].stride >= t.stride && q2[p].stride
        <= t.stride + BIG_STRIDE / 2 by {
        if p < k {
            assert(q2[p] == q[p]);
        } else if p < q.len() - 1 {
            assert(q2[p] == q[p + 1]);
        }
    }
    assert forall|p: int, r: int| 0 <= p < q2.len() && 0 <= r < q2.len() implies #[trigger] q2[p].stride
        - #[trigger] q2[r].stride <= (BIG_STRIDE / 2) as int by {
        assert(q2[p].stride <= t.stride + BIG_STRIDE / 2);
        assert(q2[r].stride >= t.stride);
    }
}

/// The pass of a task is `BIG_STRIDE` divided by its priority, rounded
/// down, a priority below 2 counting as 2: it is the largest whole number
/// that, times the priority, stays within `BIG_STRIDE`.
pub proof fn lemma_pass_is_quotient(priority: usize)
    ensures
        ({
            let q: int = if priority < 2 {
                2
            } else {
                priority as int
            };
            &&& pass_of(priority) * q <= BIG_STRIDE
            &&& BIG_STRIDE < (pass_of(priority) + 1) * q
        }),
{
    let q: int = if priority < 2 {
        2
    } else {
        priority as int
    };
    let d: int = 65536int / q;
    assert(d * q <= 65536 && 65536 < (d + 1) * q) by (nonlinear_arith)
        requires
            q >= 2,
            d == 65536int / q,
    ;
    assert(0 <= d <= 32768) by (nonlinear_arith)
        requires
            q >= 2,
            d == 65536int / q,
    ;
    assert(pass_of(priority) == d);
}

/// Picking a task keeps its id and priority and moves its stride forward by
/// its pass, modulo `usize::MAX + 1`: the distance moved, times the priority
/// (at least 2), stays within `BIG_STRIDE`, and one more step would not.
pub proof fn lemma_picked_advances_by_pass(t: ReadyTask)
    ensures
        picked(t).id == t.id,
        picked(t).priority == t.priority,
        ({
            let q: int = if t.priority < 2 {
                2
            } else {
                t.priority as int
            };
            let moved: int = (picked(t).stride - t.stride + usize::MAX + 1) % (usize::MAX + 1);
            &&& moved * q <= BIG_STRIDE
            &&& BIG_STRIDE < (moved + 1) * q
        }),
{
    lemma_pass_is_quotient(t.priority);
    let p: int = pass_of(t.priority) as int;
    let m: int = usize::MAX as int + 1;
    assert(0 <= p <= 32768) by {
        lemma_pass_bounds(t.priority, t.priority);
    }
    let moved: int = (picked(t).stride - t.stride + m) % m;
    if t.stride + p > usize::MAX {
        assert(picked(t).stride == t.stride + p - m);
        assert(picked(t).stride - t.stride + m == p);
    } else {
        assert(picked(t).stride == t.stride + p);
        assert(picked(t).stride - t.stride + m == p + m);
        assert((p + m) % m == p) by (nonlinear_arith)
            requires
                0 <= p < m,
        ;
    }
    assert(p % m == p) by (nonlinear_arith)
        requires
            0 <= p < m,
    ;
}

} // verus!
