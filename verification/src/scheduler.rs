//! The paint-order scheduler.
//!
//! A target picture is a list of coloured rectangles. Each one is painted
//! by colouring the whole region to the right of and above its lower left
//! corner, so a rectangle that is painted later covers what lies in that
//! region. The scheduler finds an order in which every rectangle is painted
//! before all those that may cover part of it, and reports the rectangles
//! for which there is no such order.
//!
//! Whether one rectangle may be painted after another is decided by one
//! comparison of corners: it may if its lower left corner lies to the right
//! of, or above, the upper right corner of the other. For rectangles on the
//! canvas this is the same as to say that its paint leaves the other alone,
//! so the test asks neither for more nor for less than this way of painting
//! needs. A rectangle does not wait for itself.

use vstd::prelude::*;
use vstd::set_lib::{lemma_int_range, lemma_len_subset, lemma_subset_equality, set_int_range};
use crate::block_id::{child_id, child_of, copy_id, decimal, minted_id};
use crate::color::Color;
use crate::error::Error;
use crate::geometry::Point;
use crate::op::{program, Op, OpView};
use crate::partition::Axis;

verus! {

/// One rectangle of a target picture, with its colour.
#[derive(Clone, Copy, Debug, PartialEq, Eq, Hash, Structural)]
pub struct SolutionRect {
    pub from: Point,
    pub to: Point,
    pub color: Color,
}

/// Whether `later` may be painted after `earlier`: its paint starts to the
/// right of, or above, the far corner of `earlier`, and so leaves it alone.
pub open spec fn may_follow(later: SolutionRect, earlier: SolutionRect) -> bool {
    later.from.x >= earlier.to.x || later.from.y >= earlier.to.y
}

/// Whether rectangle `i` has to be painted before rectangle `j`: they are
/// two rectangles, and `i` may not be painted after `j`.
pub open spec fn must_precede(rects: Seq<SolutionRect>, i: int, j: int) -> bool {
    i != j && !may_follow(rects[i], rects[j])
}

/// Whether rectangle `v` can be painted next, once those in `done` are
/// painted: it is not painted yet, and every rectangle that has to come
/// before it is.
pub open spec fn ready(rects: Seq<SolutionRect>, done: Seq<int>, v: int) -> bool {
    &&& !done.contains(v)
    &&& forall|u: int| 0 <= u < rects.len() && must_precede(rects, u, v) ==> done.contains(u)
}

/// One pass over the rectangles from index `v` on: each one that is ready
/// when the pass comes to it is painted at once.
pub open spec fn sweep(rects: Seq<SolutionRect>, done: Seq<int>, v: int) -> Seq<int>
    decreases rects.len() - v,
{
    if v < 0 || v >= rects.len() {
        done
    } else if ready(rects, done, v) {
        sweep(rects, done.push(v), v + 1)
    } else {
        sweep(rects, done, v + 1)
    }
}

/// Passes over the rectangles, one after the other, until a pass paints
/// nothing or `budget` passes are made.
pub open spec fn run_passes(rects: Seq<SolutionRect>, done: Seq<int>, budget: nat) -> Seq<int>
    decreases budget,
{
    let next = sweep(rects, done, 0);
    if budget == 0 || next.len() == done.len() {
        done
    } else {
        run_passes(rects, next, (budget - 1) as nat)
    }
}

/// The order in which the scheduler paints: that of passes over the
/// rectangles, each of which paints what is ready in the order of the
/// indices, until a pass paints nothing. Every pass but the last paints a
/// rectangle, so as many passes as there are rectangles are enough.
pub open spec fn paint_order(rects: Seq<SolutionRect>) -> Seq<int> {
    run_passes(rects, Seq::empty(), rects.len())
}

/// The indices below `upto` that are not in `order`, in increasing order.
pub open spec fn missing(order: Seq<int>, upto: int) -> Seq<int>
    decreases upto,
{
    if upto <= 0 {
        Seq::empty()
    } else if order.contains(upto - 1) {
        missing(order, upto - 1)
    } else {
        missing(order, upto - 1).push(upto - 1)
    }
}

/// Whether the scheduler can paint every rectangle.
pub open spec fn schedulable(rects: Seq<SolutionRect>) -> bool {
    forall|v: int| 0 <= v < rects.len() ==> paint_order(rects).contains(v)
}

/// Whether `order` paints every rectangle once, and each one before all
/// those that it has to precede.
pub open spec fn valid_order(rects: Seq<SolutionRect>, order: Seq<int>) -> bool {
    &&& forall|v: int| 0 <= v < rects.len() ==> order.contains(v)
    &&& forall|k: int| 0 <= k < order.len() ==> 0 <= #[trigger] order[k] < rects.len()
    &&& forall|a: int, b: int|
        0 <= a < b < order.len() ==> #[trigger] order[a] != #[trigger] order[b] && !must_precede(
            rects,
            order[b],
            order[a],
        )
}

/// Whether `done` is the start of a valid order: it holds indices of
/// rectangles, none twice, and before each of them all those that have to
/// precede it.
pub open spec fn orderly(rects: Seq<SolutionRect>, done: Seq<int>) -> bool {
    &&& forall|k: int| 0 <= k < done.len() ==> 0 <= #[trigger] done[k] < rects.len()
    &&& forall|a: int, b: int| 0 <= a < b < done.len() ==> #[trigger] done[a] != #[trigger] done[b]
    &&& forall|b: int, u: int|
        0 <= b < done.len() && 0 <= u < rects.len() && #[trigger] must_precede(rects, u, done[b])
            ==> done.take(b).contains(u)
}

/// Painting a rectangle that is ready keeps what is painted the start of a
/// valid order.
pub proof fn lemma_paint_ready(rects: Seq<SolutionRect>, done: Seq<int>, v: int)
    requires
        orderly(rects, done),
        0 <= v < rects.len(),
        ready(rects, done, v),
    ensures
        orderly(rects, done.push(v)),
{
    let more = done.push(v);
    assert forall|b: int, u: int|
        0 <= b < more.len() && 0 <= u < rects.len() && #[trigger] must_precede(
            rects,
            u,
            more[b],
        ) implies more.take(b).contains(u) by {
        if b < done.len() {
            assert(done.take(b).contains(u));
            let a = choose|a: int| 0 <= a < done.take(b).len() && done.take(b)[a] == u;
            assert(more.take(b)[a] == u);
        } else {
            assert(done.contains(u));
            let a = choose|a: int| 0 <= a < done.len() && done[a] == u;
            assert(more.take(b)[a] == u);
        }
    }
    assert forall|a: int, b: int| 0 <= a < b < more.len() implies #[trigger] more[a]
        != #[trigger] more[b] by {
        if b == done.len() {
            assert(done[a] == more[a]);
        }
    }
}

/// A pass adds to what is painted, and keeps it the start of a valid order.
pub proof fn lemma_sweep(rects: Seq<SolutionRect>, done: Seq<int>, v: int)
    requires
        orderly(rects, done),
        0 <= v,
    ensures
        orderly(rects, sweep(rects, done, v)),
        done.len() <= sweep(rects, done, v).len(),
        sweep(rects, done, v).take(done.len() as int) == done,
    decreases rects.len() - v,
{
    if v >= rects.len() {
        assert(done.take(done.len() as int) =~= done);
    } else if ready(rects, done, v) {
        let more = done.push(v);
        lemma_paint_ready(rects, done, v);
        lemma_sweep(rects, more, v + 1);
        let end = sweep(rects, more, v + 1);
        assert(end.take(done.len() as int) =~= end.take(more.len() as int).take(
            done.len() as int,
        ));
        assert(more.take(done.len() as int) =~= done);
    } else {
        lemma_sweep(rects, done, v + 1);
    }
}

/// Passes keep what is painted the start of a valid order.
pub proof fn lemma_run_passes(rects: Seq<SolutionRect>, done: Seq<int>, budget: nat)
    requires
        orderly(rects, done),
    ensures
        orderly(rects, run_passes(rects, done, budget)),
    decreases budget,
{
    lemma_sweep(rects, done, 0);
    let next = sweep(rects, done, 0);
    if budget != 0 && next.len() != done.len() {
        lemma_run_passes(rects, next, (budget - 1) as nat);
    }
}

/// Where the scheduler paints every rectangle, its order is a valid one.
pub proof fn lemma_paint_order_valid(rects: Seq<SolutionRect>)
    requires
        schedulable(rects),
    ensures
        valid_order(rects, paint_order(rects)),
{
    let order = paint_order(rects);
    lemma_run_passes(rects, Seq::empty(), rects.len());
    assert forall|a: int, b: int| 0 <= a < b < order.len() implies #[trigger] order[a]
        != #[trigger] order[b] && !must_precede(rects, order[b], order[a]) by {
        if must_precede(rects, order[b], order[a]) {
            assert(order.take(a).contains(order[b]));
            let c = choose|c: int| 0 <= c < order.take(a).len() && order.take(a)[c] == order[b];
            assert(order[c] == order[b]);
        }
    }
}

/// Where rectangles are left of which each waits for another that is left,
/// no order is valid.
pub proof fn lemma_stuck_means_unsatisfiable(
    rects: Seq<SolutionRect>,
    done: Seq<int>,
    order: Seq<int>,
)
    requires
        exists|v: int| 0 <= v < rects.len() && !done.contains(v),
        forall|v: int| 0 <= v < rects.len() && !done.contains(v) ==> !ready(rects, done, v),
    ensures
        !valid_order(rects, order),
{
    if valid_order(rects, order) {
        lemma_only_done_in_prefix(rects, done, order, order.len() as int);
        let v = choose|v: int| 0 <= v < rects.len() && !done.contains(v);
        assert(order.contains(v));
    }
}

/// In a valid order, no rectangle that waits for another that is left can
/// come first among those that are left.
proof fn lemma_only_done_in_prefix(
    rects: Seq<SolutionRect>,
    done: Seq<int>,
    order: Seq<int>,
    upto: int,
)
    requires
        valid_order(rects, order),
        forall|v: int| 0 <= v < rects.len() && !done.contains(v) ==> !ready(rects, done, v),
        0 <= upto <= order.len(),
    ensures
        forall|k: int| 0 <= k < upto ==> done.contains(#[trigger] order[k]),
    decreases upto,
{
    if upto > 0 {
        lemma_only_done_in_prefix(rects, done, order, upto - 1);
        let v = order[upto - 1];
        if !done.contains(v) {
            assert(!ready(rects, done, v));
            let u = choose|u: int|
                0 <= u < rects.len() && must_precede(rects, u, v) && !done.contains(u);
            assert(order.contains(u));
            let q = choose|q: int| 0 <= q < order.len() && order[q] == u;
            if q < upto - 1 {
                assert(done.contains(order[q]));
            } else {
                assert(order[upto - 1] != order[q] && !must_precede(
                    rects,
                    order[q],
                    order[upto - 1],
                ));
            }
        }
    }
}

/// The start of a valid order holds no more indices than there are
/// rectangles, and if it holds as many, it holds them all.
pub proof fn lemma_orderly_len(rects: Seq<SolutionRect>, done: Seq<int>)
    requires
        orderly(rects, done),
    ensures
        done.len() <= rects.len(),
        done.len() == rects.len() <==> forall|v: int| 0 <= v < rects.len() ==> done.contains(v),
{
    let all = set_int_range(0, rects.len() as int);
    assert(done.no_duplicates());
    done.unique_seq_to_set();
    lemma_int_range(0, rects.len() as int);
    assert(done.to_set().subset_of(all)) by {
        assert forall|v: int| done.to_set().contains(v) implies all.contains(v) by {
            let k = choose|k: int| 0 <= k < done.len() && done[k] == v;
        }
    }
    lemma_len_subset(done.to_set(), all);
    if done.len() == rects.len() {
        lemma_subset_equality(done.to_set(), all);
        assert forall|v: int| 0 <= v < rects.len() implies done.contains(v) by {
            assert(all.contains(v));
            assert(done.to_set().contains(v));
        }
    }
    if forall|v: int| 0 <= v < rects.len() ==> done.contains(v) {
        assert(all.subset_of(done.to_set())) by {
            assert forall|v: int| all.contains(v) implies done.to_set().contains(v) by {
                assert(done.contains(v));
            }
        }
        lemma_len_subset(all, done.to_set());
    }
}

/// A pass that paints nothing found nothing ready.
pub proof fn lemma_idle_sweep(rects: Seq<SolutionRect>, done: Seq<int>, v: int)
    requires
        orderly(rects, done),
        0 <= v,
        sweep(rects, done, v).len() == done.len(),
    ensures
        forall|w: int| v <= w < rects.len() ==> !ready(rects, done, w),
    decreases rects.len() - v,
{
    if v < rects.len() {
        if ready(rects, done, v) {
            lemma_paint_ready(rects, done, v);
            lemma_sweep(rects, done.push(v), v + 1);
        } else {
            lemma_idle_sweep(rects, done, v + 1);
        }
    }
}

/// With a pass for every rectangle that is not painted yet, the passes end
/// because one of them paints nothing: no rectangle is ready after them.
pub proof fn lemma_passes_end_idle(rects: Seq<SolutionRect>, done: Seq<int>, budget: nat)
    requires
        orderly(rects, done),
        budget + done.len() >= rects.len(),
    ensures
        forall|w: int|
            0 <= w < rects.len() ==> !ready(rects, run_passes(rects, done, budget), w),
    decreases budget,
{
    let next = sweep(rects, done, 0);
    lemma_sweep(rects, done, 0);
    lemma_orderly_len(rects, done);
    lemma_orderly_len(rects, next);
    if next.len() == done.len() {
        lemma_idle_sweep(rects, done, 0);
        assert(run_passes(rects, done, budget) == done);
    } else {
        // A pass that paints something finds something left to paint, so
        // the budget is not used up.
        assert(budget != 0);
        lemma_passes_end_idle(rects, next, (budget - 1) as nat);
        assert(run_passes(rects, done, budget) == run_passes(rects, next, (budget - 1) as nat));
    }
}

/// Where the scheduler cannot paint every rectangle, no order is valid: the
/// rectangles wait for each other in a circle.
pub proof fn lemma_unschedulable_means_unsatisfiable(rects: Seq<SolutionRect>, order: Seq<int>)
    requires
        !schedulable(rects),
    ensures
        !valid_order(rects, order),
{
    let done = paint_order(rects);
    lemma_passes_end_idle(rects, Seq::empty(), rects.len());
    lemma_stuck_means_unsatisfiable(rects, done, order);
}

/// The indices that are left over are none exactly when all are painted.
pub proof fn lemma_missing(order: Seq<int>, upto: int)
    requires
        0 <= upto,
    ensures
        missing(order, upto).len() == 0 <==> forall|v: int| 0 <= v < upto ==> order.contains(v),
        forall|k: int|
            0 <= k < missing(order, upto).len() ==> 0 <= #[trigger] missing(order, upto)[k] < upto
                && !order.contains(missing(order, upto)[k]),
    decreases upto,
{
    if upto > 0 {
        lemma_missing(order, upto - 1);
        if !order.contains(upto - 1) {
            assert(missing(order, upto).last() == upto - 1);
        }
    }
}

/// The number of rectangles below `upto` that have to precede `j` and are
/// not painted yet.
pub open spec fn waiting(rects: Seq<SolutionRect>, done: Seq<int>, j: int, upto: int) -> int
    decreases upto,
{
    if upto <= 0 {
        0
    } else {
        waiting(rects, done, j, upto - 1) + if must_precede(rects, upto - 1, j) && !done.contains(
            upto - 1,
        ) {
            1int
        } else {
            0int
        }
    }
}

/// Nothing is waited for exactly when all that has to come first is painted.
pub proof fn lemma_waiting_none(rects: Seq<SolutionRect>, done: Seq<int>, j: int, upto: int)
    requires
        0 <= upto,
    ensures
        0 <= waiting(rects, done, j, upto) <= upto,
        waiting(rects, done, j, upto) == 0 <==> forall|u: int|
            0 <= u < upto && must_precede(rects, u, j) ==> done.contains(u),
    decreases upto,
{
    if upto > 0 {
        lemma_waiting_none(rects, done, j, upto - 1);
    }
}

/// Painting `v` takes it off the count of every rectangle that waits for it.
pub proof fn lemma_waiting_less(
    rects: Seq<SolutionRect>,
    done: Seq<int>,
    v: int,
    j: int,
    upto: int,
)
    requires
        0 <= upto,
        0 <= v,
        !done.contains(v),
    ensures
        waiting(rects, done.push(v), j, upto) == waiting(rects, done, j, upto) - if v < upto
            && must_precede(rects, v, j) {
            1int
        } else {
            0int
        },
    decreases upto,
{
    if upto > 0 {
        lemma_waiting_less(rects, done, v, j, upto - 1);
        let u = upto - 1;
        if u == v {
            assert(done.push(v)[done.len() as int] == v);
        } else if done.contains(u) {
            let k = choose|k: int| 0 <= k < done.len() && done[k] == u;
            assert(done.push(v)[k] == u);
        } else {
            if done.push(v).contains(u) {
                let k = choose|k: int| 0 <= k < done.push(v).len() && done.push(v)[k] == u;
                assert(done[k] == u);
            }
        }
    }
}

/// The indices of an order as integers.
pub open spec fn as_ints(order: Seq<usize>) -> Seq<int> {
    order.map_values(|v: usize| v as int)
}

/// Whether rectangle `i` has to be painted before rectangle `j`: they are
/// two rectangles, and the paint of `i` starts neither to the right of nor
/// above the far corner of `j`.
pub fn precedes(rects: &[SolutionRect], i: usize, j: usize) -> (b: bool)
    requires
        i < rects.len(),
        j < rects.len(),
    ensures
        b == must_precede(rects@, i as int, j as int),
{
    i != j && !(rects[i].from.x >= rects[j].to.x || rects[i].from.y >= rects[j].to.y)
}

/// For every rectangle, the number of rectangles that have to be painted
/// before it.
fn count_waiting(rects: &[SolutionRect]) -> (need: Vec<usize>)
    ensures
        need.len() == rects.len(),
        forall|j: int|
            0 <= j < rects.len() ==> #[trigger] need[j] == waiting(
                rects@,
                Seq::empty(),
                j,
                rects.len() as int,
            ),
{
    let n: usize = rects.len();
    let mut need: Vec<usize> = Vec::new();
    let mut j: usize = 0;
    while j < n
        invariant
            n == rects.len(),
            j <= n,
            need.len() == j,
            forall|k: int|
                0 <= k < j ==> #[trigger] need[k] == waiting(rects@, Seq::empty(), k, n as int),
        decreases n - j,
    {
        let mut count: usize = 0;
        let mut i: usize = 0;
        while i < n
            invariant
                n == rects.len(),
                j < n,
                i <= n,
                count == waiting(rects@, Seq::empty(), j as int, i as int),
                count <= i,
            decreases n - i,
        {
            if precedes(rects, i, j) {
                count += 1;
            }
            i += 1;
        }
        need.push(count);
        j += 1;
    }
    need
}

/// The order in which to paint the rectangles, or `UnsatisfiableOrder` with
/// the rectangles that cannot be painted because they wait for each other.
///
/// Rectangle `i` has to be painted before rectangle `j` unless the paint of
/// `i` starts to the right of, or above, the far corner of `j`. The order is
/// found in passes: each pass goes through the rectangles in the order of
/// their indices and paints those for which nothing is left to wait for.
pub fn schedule(rects: &[SolutionRect]) -> (result: Result<Vec<usize>, Error>)
    ensures
        match result {
            Ok(order) => schedulable(rects@) && as_ints(order@) == paint_order(rects@),
            Err(Error::UnsatisfiableOrder(left)) => !schedulable(rects@) && as_ints(left@)
                == missing(paint_order(rects@), rects.len() as int),
            Err(_) => false,
        },
        result is Ok ==> valid_order(rects@, paint_order(rects@)),
        result is Err ==> forall|order: Seq<int>| !valid_order(rects@, order),
{
    let n: usize = rects.len();
    let mut need: Vec<usize> = count_waiting(rects);
    let mut used: Vec<bool> = Vec::new();
    let mut k: usize = 0;
    while k < n
        invariant
            k <= n,
            used.len() == k,
            forall|v: int| 0 <= v < k ==> !(#[trigger] used[v]),
        decreases n - k,
    {
        used.push(false);
        k += 1;
    }
    let mut queue: Vec<usize> = Vec::new();
    let ghost mut budget: nat = n as nat;
    let mut changed: bool = true;
    assert(as_ints(queue@) =~= Seq::empty());
    while changed
        invariant
            n == rects.len(),
            need.len() == n,
            used.len() == n,
            queue.len() <= n,
            orderly(rects@, as_ints(queue@)),
            forall|v: int| 0 <= v < n ==> (#[trigger] used[v] <==> as_ints(queue@).contains(v)),
            forall|j: int|
                0 <= j < n ==> #[trigger] need[j] == waiting(rects@, as_ints(queue@), j, n as int),
            changed ==> paint_order(rects@) == run_passes(rects@, as_ints(queue@), budget),
            changed ==> budget + queue.len() >= n,
            !changed ==> paint_order(rects@) == as_ints(queue@),
        decreases
                n - queue.len() + if changed {
                    1int
                } else {
                    0int
                },
    {
        let ghost start = as_ints(queue@);
        changed = false;
        let mut v: usize = 0;
        while v < n
            invariant
                n == rects.len(),
                need.len() == n,
                used.len() == n,
                v <= n,
                queue.len() <= n,
                start.len() <= queue.len(),
                changed <==> queue.len() != start.len(),
                orderly(rects@, as_ints(queue@)),
                forall|w: int| 0 <= w < n ==> (#[trigger] used[w] <==> as_ints(queue@).contains(w)),
                forall|j: int|
                    0 <= j < n ==> #[trigger] need[j] == waiting(
                        rects@,
                        as_ints(queue@),
                        j,
                        n as int,
                    ),
                sweep(rects@, start, 0) == sweep(rects@, as_ints(queue@), v as int),
            decreases n - v,
        {
            let ghost done = as_ints(queue@);
            proof {
                lemma_waiting_none(rects@, done, v as int, n as int);
            }
            if need[v] == 0 && !used[v] {
                proof {
                    lemma_paint_ready(rects@, done, v as int);
                    lemma_orderly_len(rects@, done.push(v as int));
                }
                changed = true;
                used.set(v, true);
                queue.push(v);
                let ghost more = as_ints(queue@);
                proof {
                    assert(more =~= done.push(v as int));
                    assert forall|w: int| 0 <= w < n implies (#[trigger] used[w] <==> more.contains(
                        w,
                    )) by {
                        if w == v {
                            assert(more[done.len() as int] == w);
                        } else if done.contains(w) {
                            let a = choose|a: int| 0 <= a < done.len() && done[a] == w;
                            assert(more[a] == w);
                        } else if more.contains(w) {
                            let a = choose|a: int| 0 <= a < more.len() && more[a] == w;
                            assert(done[a] == w);
                        }
                    }
                }
                let mut j: usize = 0;
                while j < n
                    invariant
                        n == rects.len(),
                        need.len() == n,
                        v < n,
                        j <= n,
                        !done.contains(v as int),
                        more == done.push(v as int),
                        forall|i: int|
                            0 <= i < j ==> #[trigger] need[i] == waiting(rects@, more, i, n as int),
                        forall|i: int|
                            j <= i < n ==> #[trigger] need[i] == waiting(rects@, done, i, n as int),
                    decreases n - j,
                {
                    proof {
                        lemma_waiting_less(rects@, done, v as int, j as int, n as int);
                        lemma_waiting_none(rects@, more, j as int, n as int);
                    }
                    if precedes(rects, v, j) {
                        need.set(j, need[j] - 1);
                    }
                    j += 1;
                }
            }
            v += 1;
        }
        proof {
            let next = as_ints(queue@);
            assert(sweep(rects@, start, 0) == next);
            lemma_sweep(rects@, start, 0);
            if changed {
                budget = (budget - 1) as nat;
            } else {
                assert(next.take(next.len() as int) =~= next);
            }
        }
    }
    let ghost done = as_ints(queue@);
    proof {
        lemma_orderly_len(rects@, done);
    }
    if queue.len() == n {
        proof {
            lemma_paint_order_valid(rects@);
        }
        return Ok(queue);
    }
    let mut left: Vec<usize> = Vec::new();
    let mut v: usize = 0;
    while v < n
        invariant
            v <= n,
            used.len() == n,
            forall|w: int| 0 <= w < n ==> (#[trigger] used[w] <==> done.contains(w)),
            as_ints(left@) == missing(done, v as int),
        decreases n - v,
    {
        if !used[v] {
            left.push(v);
            assert(as_ints(left@) =~= missing(done, v as int).push(v as int));
        }
        v += 1;
    }
    proof {
        assert forall|order: Seq<int>| !valid_order(rects@, order) by {
            lemma_unschedulable_means_unsatisfiable(rects@, order);
        }
    }
    Err(Error::UnsatisfiableOrder(left))
}

/// The instructions that paint the region to the right of and above `from`
/// on a canvas whose one block has the number `whole`.
///
/// A cut at `from` sets the region apart as the last child but one of a
/// point cut, or as the second child of a line cut where `from` lies on the
/// left or the lower edge; the region is coloured; and merges put the canvas
/// together again, first the lower two quadrants, then the upper two, then
/// both halves. Where `from` is the origin, the whole block is coloured as
/// it is.
pub open spec fn corner_ops(whole: nat, from: Point, color: Color) -> Seq<OpView> {
    let id = decimal(whole);
    if from.x == 0 && from.y == 0 {
        seq![OpView::Color(id, color)]
    } else if from.x == 0 {
        seq![
            OpView::CutAxis(id, Axis::Y, from.y),
            OpView::Color(child_of(id, 1), color),
            OpView::Merge(child_of(id, 0), child_of(id, 1)),
        ]
    } else if from.y == 0 {
        seq![
            OpView::CutAxis(id, Axis::X, from.x),
            OpView::Color(child_of(id, 1), color),
            OpView::Merge(child_of(id, 0), child_of(id, 1)),
        ]
    } else {
        seq![
            OpView::CutPoint(id, from),
            OpView::Color(child_of(id, 2), color),
            OpView::Merge(child_of(id, 0), child_of(id, 1)),
            OpView::Merge(child_of(id, 3), child_of(id, 2)),
            OpView::Merge(decimal(whole + 1), decimal(whole + 2)),
        ]
    }
}

/// The number of the one block of the canvas after [`corner_ops`]: every
/// merge gives out the next number.
pub open spec fn corner_next(whole: nat, from: Point) -> nat {
    if from.x == 0 && from.y == 0 {
        whole
    } else if from.x == 0 || from.y == 0 {
        whole + 1
    } else {
        whole + 3
    }
}

/// The number of the one block of the canvas after the rectangles of
/// `order` are painted, where it was `start` before.
pub open spec fn cursor_after(rects: Seq<SolutionRect>, order: Seq<int>, start: nat) -> nat
    decreases order.len(),
{
    if order.len() == 0 {
        start
    } else {
        corner_next(cursor_after(rects, order.drop_last(), start), rects[order.last()].from)
    }
}

/// The instructions that paint the rectangles of `order`, one after the
/// other, on a canvas whose one block has the number `start`.
pub open spec fn emitted(rects: Seq<SolutionRect>, order: Seq<int>, start: nat) -> Seq<OpView>
    decreases order.len(),
{
    if order.len() == 0 {
        Seq::empty()
    } else {
        emitted(rects, order.drop_last(), start) + corner_ops(
            cursor_after(rects, order.drop_last(), start),
            rects[order.last()].from,
            rects[order.last()].color,
        )
    }
}

/// Painting a rectangle gives out at most three numbers.
pub proof fn lemma_cursor_bound(rects: Seq<SolutionRect>, order: Seq<int>, start: nat)
    ensures
        start <= cursor_after(rects, order, start) <= start + 3 * order.len(),
    decreases order.len(),
{
    if order.len() > 0 {
        lemma_cursor_bound(rects, order.drop_last(), start);
    }
}

/// The instructions for one rectangle, and the number of the one block of
/// the canvas after them.
#[derive(Debug, PartialEq, Eq)]
pub struct CornerPaint {
    pub ops: Vec<Op>,
    pub cur_whole_id: u64,
}

/// The instructions that paint the region to the right of and above `from`
/// with `color`, on a canvas whose one block has the number `cur_whole_id`.
pub fn color_corner(from: Point, cur_whole_id: u64, color: Color) -> (paint: CornerPaint)
    requires
        cur_whole_id + 3 <= u64::MAX,
    ensures
        program(paint.ops@) == corner_ops(cur_whole_id as nat, from, color),
        paint.cur_whole_id == corner_next(cur_whole_id as nat, from),
{
    let id: Vec<u8> = minted_id(cur_whole_id);
    let mut ops: Vec<Op> = Vec::new();
    let mut next: u64 = cur_whole_id;
    if from.x == 0 && from.y == 0 {
        ops.push(Op::Color(id, color));
    } else if from.x == 0 || from.y == 0 {
        let lower: Vec<u8> = child_id(&id, 0);
        let upper: Vec<u8> = child_id(&id, 1);
        if from.x == 0 {
            ops.push(Op::CutAxis(id, Axis::Y, from.y));
        } else {
            ops.push(Op::CutAxis(id, Axis::X, from.x));
        }
        ops.push(Op::Color(copy_id(&upper), color));
        ops.push(Op::Merge(lower, upper));
        next = cur_whole_id + 1;
    } else {
        let bottom_left: Vec<u8> = child_id(&id, 0);
        let bottom_right: Vec<u8> = child_id(&id, 1);
        let top_right: Vec<u8> = child_id(&id, 2);
        let top_left: Vec<u8> = child_id(&id, 3);
        ops.push(Op::CutPoint(id, from));
        ops.push(Op::Color(copy_id(&top_right), color));
        ops.push(Op::Merge(bottom_left, bottom_right));
        ops.push(Op::Merge(top_left, top_right));
        ops.push(Op::Merge(minted_id(cur_whole_id + 1), minted_id(cur_whole_id + 2)));
        next = cur_whole_id + 3;
    }
    assert(program(ops@) =~= corner_ops(cur_whole_id as nat, from, color));
    CornerPaint { ops, cur_whole_id: next }
}

/// What came before the scheduler: the instructions so far, and the number
/// of the one block that they leave on the canvas.
#[derive(Debug, PartialEq, Eq)]
pub struct MergeResult {
    pub ops: Vec<Op>,
    pub last_block_id: u64,
}

/// The prior instructions, then those that paint the rectangles in the
/// order of [`schedule`]; or `UnsatisfiableOrder` where the rectangles wait
/// for each other. Each rectangle is painted as [`color_corner`] does it,
/// from its lower left corner to the upper right corner of the
/// `field_n x field_m` canvas. Three numbers for every rectangle must be
/// left above `last_block_id`.
///
/// Where the prior instructions colour nothing and every rectangle can be
/// told from the instructions that paint it, [`gen_rects_by_ops`] has the
/// rectangles again from the program, in the order in which they are
/// painted.
#[allow(unused_variables)]
pub fn gen_ops_by_solution_rects(
    rects: &[SolutionRect],
    field_n: usize,
    field_m: usize,
    merge_result: &MergeResult,
) -> (result: Result<Vec<Op>, Error>)
    requires
        merge_result.last_block_id + 3 * rects.len() <= u64::MAX,
    ensures
        match result {
            Ok(ops) => schedulable(rects@) && program(ops@) == program(merge_result.ops@) + emitted(
                rects@,
                paint_order(rects@),
                merge_result.last_block_id as nat,
            ),
            Err(Error::UnsatisfiableOrder(left)) => !schedulable(rects@) && as_ints(left@)
                == missing(paint_order(rects@), rects.len() as int),
            Err(_) => false,
        },
        result is Ok ==> valid_order(rects@, paint_order(rects@)),
        result is Err ==> forall|order: Seq<int>| !valid_order(rects@, order),
        result is Ok && recovered(
            program(merge_result.ops@),
            field_n as int,
            field_m as int,
            Point::origin(),
        ).len() == 0 && told_apart(
            rects@,
            paint_order(rects@),
            field_n as int,
            field_m as int,
            last_point(program(merge_result.ops@), Point::origin()),
        ) ==> recovered(
            program(result->Ok_0@),
            field_n as int,
            field_m as int,
            Point::origin(),
        ) == in_order(rects@, paint_order(rects@)),
{
    let queue: Vec<usize> = match schedule(rects) {
        Ok(queue) => queue,
        Err(e) => {
            return Err(e);
        },
    };
    let ghost order = paint_order(rects@);
    let ghost start = merge_result.last_block_id as nat;
    proof {
        lemma_paint_order_valid(rects@);
        lemma_run_passes(rects@, Seq::empty(), rects.len() as nat);
        lemma_orderly_len(rects@, order);
    }
    let mut res: Vec<Op> = Vec::new();
    let mut i: usize = 0;
    while i < merge_result.ops.len()
        invariant
            i <= merge_result.ops.len(),
            program(res@) == program(merge_result.ops@).take(i as int),
        decreases merge_result.ops.len() - i,
    {
        let ghost before = res@;
        let op: Op = merge_result.ops[i].clone();
        res.push(op);
        i += 1;
        assert(program(res@) =~= program(before).push(op@));
        assert(program(res@) =~= program(merge_result.ops@).take(i as int));
    }
    assert(program(merge_result.ops@).take(i as int) =~= program(merge_result.ops@));
    let mut cur_whole_id: u64 = merge_result.last_block_id;
    let mut k: usize = 0;
    assert(order.take(0).len() == 0);
    assert(program(res@) =~= program(merge_result.ops@) + emitted(rects@, order.take(0), start));
    while k < queue.len()
        invariant
            k <= queue.len(),
            order == as_ints(queue@),
            order.len() <= rects.len(),
            forall|a: int| 0 <= a < order.len() ==> 0 <= #[trigger] order[a] < rects.len(),
            start == merge_result.last_block_id,
            start + 3 * rects.len() <= u64::MAX,
            cur_whole_id == cursor_after(rects@, order.take(k as int), start),
            program(res@) == program(merge_result.ops@) + emitted(
                rects@,
                order.take(k as int),
                start,
            ),
        decreases queue.len() - k,
    {
        let rect_id: usize = queue[k];
        assert(order[k as int] == rect_id);
        let r: SolutionRect = rects[rect_id];
        proof {
            lemma_cursor_bound(rects@, order.take(k as int), start);
        }
        let mut to_color: CornerPaint = color_corner(r.from, cur_whole_id, r.color);
        let ghost before = res@;
        let ghost added = to_color.ops@;
        res.append(&mut to_color.ops);
        cur_whole_id = to_color.cur_whole_id;
        k += 1;
        proof {
            assert(order.take(k as int).drop_last() =~= order.take(k - 1));
            assert(order.take(k as int).last() == rect_id);
            assert(program(before + added) =~= program(before) + program(added));
            assert(program(res@) =~= program(merge_result.ops@) + emitted(
                rects@,
                order.take(k as int),
                start,
            ));
        }
    }
    proof {
        assert(order.take(k as int) =~= order);
        let prior = program(merge_result.ops@);
        if recovered(prior, field_n as int, field_m as int, Point::origin()).len() == 0
            && told_apart(
            rects@,
            order,
            field_n as int,
            field_m as int,
            last_point(prior, Point::origin()),
        ) {
            lemma_round_trip(rects@, field_n as int, field_m as int, prior, start);
        }
    }
    Ok(res)
}

/// The point at which the latest cut of `ops` was made: the point of a
/// point cut, and the point of a line cut on the edge of the canvas from
/// which the line starts. Before the first cut it is `start`.
pub open spec fn last_point(ops: Seq<OpView>, start: Point) -> Point
    decreases ops.len(),
{
    if ops.len() == 0 {
        start
    } else {
        match ops.last() {
            OpView::CutPoint(id, p) => p,
            OpView::CutAxis(id, Axis::Y, y) => Point { x: 0, y },
            OpView::CutAxis(id, Axis::X, x) => Point { x, y: 0 },
            _ => last_point(ops.drop_last(), start),
        }
    }
}

/// The rectangles that the instructions paint, in their order: one for
/// every colouring, from the point of the latest cut to the upper right
/// corner of the `n x m` canvas.
pub open spec fn recovered(ops: Seq<OpView>, n: int, m: int, start: Point) -> Seq<SolutionRect>
    decreases ops.len(),
{
    if ops.len() == 0 {
        Seq::empty()
    } else {
        let earlier = recovered(ops.drop_last(), n, m, start);
        match ops.last() {
            OpView::Color(id, color) => earlier.push(
                SolutionRect {
                    from: last_point(ops.drop_last(), start),
                    to: Point { x: n as i32, y: m as i32 },
                    color,
                },
            ),
            _ => earlier,
        }
    }
}

/// The rectangles that a program of the scheduler paints on an `n x m`
/// canvas: for every colouring one, from the point of the latest cut
/// before it (the origin, where there is none) to the upper right corner of
/// the canvas. The sides of the canvas must fit in an `i32`.
pub fn gen_rects_by_ops(ops: &[Op], n: usize, m: usize) -> (res: Vec<SolutionRect>)
    requires
        n <= i32::MAX,
        m <= i32::MAX,
    ensures
        res@ == recovered(program(ops@), n as int, m as int, Point::origin()),
{
    let mut res: Vec<SolutionRect> = Vec::new();
    let mut last: Point = Point::zero();
    let ghost all = program(ops@);
    let mut i: usize = 0;
    assert(all.take(0).len() == 0);
    while i < ops.len()
        invariant
            i <= ops.len(),
            n <= i32::MAX,
            m <= i32::MAX,
            all == program(ops@),
            last == last_point(all.take(i as int), Point::origin()),
            res@ == recovered(all.take(i as int), n as int, m as int, Point::origin()),
        decreases ops.len() - i,
    {
        proof {
            assert(all.take(i + 1).drop_last() =~= all.take(i as int));
            assert(all.take(i + 1).last() == ops@[i as int]@);
        }
        match &ops[i] {
            Op::CutPoint(_, p) => {
                last = *p;
            },
            Op::Color(_, color) => {
                res.push(
                    SolutionRect {
                        from: last,
                        to: Point { x: n as i32, y: m as i32 },
                        color: *color,
                    },
                );
            },
            Op::CutAxis(_, Axis::Y, y) => {
                last = Point { x: 0, y: *y };
            },
            Op::CutAxis(_, Axis::X, x) => {
                last = Point { x: *x, y: 0 };
            },
            Op::Merge(_, _) => {},
        }
        i += 1;
    }
    assert(all.take(i as int) =~= all);
    res
}

/// What a program paints is what its first part paints and then what its
/// second part paints, where the second part starts from the latest cut of
/// the first.
pub proof fn lemma_recovered_concat(
    first: Seq<OpView>,
    second: Seq<OpView>,
    n: int,
    m: int,
    start: Point,
)
    ensures
        last_point(first + second, start) == last_point(second, last_point(first, start)),
        recovered(first + second, n, m, start) == recovered(first, n, m, start) + recovered(
            second,
            n,
            m,
            last_point(first, start),
        ),
    decreases second.len(),
{
    if second.len() == 0 {
        assert(first + second =~= first);
        assert(recovered(first, n, m, start) + Seq::<SolutionRect>::empty() =~= recovered(
            first,
            n,
            m,
            start,
        ));
    } else {
        assert((first + second).drop_last() =~= first + second.drop_last());
        assert((first + second).last() == second.last());
        lemma_recovered_concat(first, second.drop_last(), n, m, start);
        let middle = last_point(first, start);
        let a = recovered(first, n, m, start);
        let b = recovered(second.drop_last(), n, m, middle);
        match second.last() {
            OpView::Color(id, color) => {
                let r = SolutionRect {
                    from: last_point(second.drop_last(), middle),
                    to: Point { x: n as i32, y: m as i32 },
                    color,
                };
                assert((a + b).push(r) =~= a + b.push(r));
            },
            _ => {},
        }
    }
}

/// The instructions for one rectangle paint one rectangle: from the corner
/// that was asked for, or, where that is the origin and so nothing is cut,
/// from the point of the latest cut before them.
pub proof fn lemma_recovered_corner(
    whole: nat,
    from: Point,
    color: Color,
    n: int,
    m: int,
    start: Point,
)
    ensures
        last_point(corner_ops(whole, from, color), start) == if from == Point::origin() {
            start
        } else {
            from
        },
        recovered(corner_ops(whole, from, color), n, m, start) == seq![
            SolutionRect {
                from: if from == Point::origin() {
                    start
                } else {
                    from
                },
                to: Point { x: n as i32, y: m as i32 },
                color,
            },
        ],
{
    let ops = corner_ops(whole, from, color);
    reveal_with_fuel(last_point, 6);
    reveal_with_fuel(recovered, 6);
    if from.x == 0 && from.y == 0 {
        assert(ops.drop_last().len() == 0);
    } else if from.x == 0 || from.y == 0 {
        let a = ops.drop_last();
        let b = a.drop_last();
        assert(a.last() == ops[1]);
        assert(b.last() == ops[0]);
        assert(b.drop_last().len() == 0);
    } else {
        let a = ops.drop_last();
        let b = a.drop_last();
        let c = b.drop_last();
        let d = c.drop_last();
        assert(a.last() == ops[3]);
        assert(b.last() == ops[2]);
        assert(c.last() == ops[1]);
        assert(d.last() == ops[0]);
        assert(d.drop_last().len() == 0);
    }
    assert(recovered(ops, n, m, start) =~= seq![
        SolutionRect {
            from: if from == Point::origin() {
                start
            } else {
                from
            },
            to: Point { x: n as i32, y: m as i32 },
            color,
        },
    ]);
}

/// The point of the latest cut after the rectangles of `order` are
/// painted, where it was `start` before: a rectangle that starts at the
/// origin is painted without a cut.
pub open spec fn point_after(rects: Seq<SolutionRect>, order: Seq<int>, start: Point) -> Point
    decreases order.len(),
{
    if order.len() == 0 {
        start
    } else if rects[order.last()].from == Point::origin() {
        point_after(rects, order.drop_last(), start)
    } else {
        rects[order.last()].from
    }
}

/// Whether every rectangle of `order` can be told from the instructions
/// that paint it: it reaches to the upper right corner of the `n x m`
/// canvas, and if it starts at the origin, no cut was made before it.
pub open spec fn told_apart(
    rects: Seq<SolutionRect>,
    order: Seq<int>,
    n: int,
    m: int,
    start: Point,
) -> bool {
    forall|k: int|
        0 <= k < order.len() ==> (#[trigger] rects[order[k]]).to == (Point {
            x: n as i32,
            y: m as i32,
        }) && (rects[order[k]].from == Point::origin() ==> point_after(
            rects,
            order.take(k),
            start,
        ) == Point::origin())
}

/// The rectangles of `order`, in that order.
pub open spec fn in_order(rects: Seq<SolutionRect>, order: Seq<int>) -> Seq<SolutionRect> {
    order.map_values(|i: int| rects[i])
}

/// From the instructions that paint the rectangles of `order`, the
/// rectangles can be had again, in that order.
pub proof fn lemma_recovered_emitted(
    rects: Seq<SolutionRect>,
    order: Seq<int>,
    cursor: nat,
    n: int,
    m: int,
    start: Point,
)
    requires
        told_apart(rects, order, n, m, start),
    ensures
        last_point(emitted(rects, order, cursor), start) == point_after(rects, order, start),
        recovered(emitted(rects, order, cursor), n, m, start) == in_order(rects, order),
    decreases order.len(),
{
    if order.len() == 0 {
        assert(in_order(rects, order) =~= Seq::empty());
    } else {
        let earlier = order.drop_last();
        let r = rects[order.last()];
        assert forall|k: int| 0 <= k < earlier.len() implies (#[trigger] rects[earlier[k]]).to == (
        Point { x: n as i32, y: m as i32 }) && (rects[earlier[k]].from == Point::origin()
            ==> point_after(rects, earlier.take(k), start) == Point::origin()) by {
            assert(earlier[k] == order[k]);
            assert(earlier.take(k) =~= order.take(k));
            assert(rects[order[k]].to == (Point { x: n as i32, y: m as i32 }));
        }
        lemma_recovered_emitted(rects, earlier, cursor, n, m, start);
        let head = emitted(rects, earlier, cursor);
        let tail = corner_ops(cursor_after(rects, earlier, cursor), r.from, r.color);
        lemma_recovered_concat(head, tail, n, m, start);
        lemma_recovered_corner(
            cursor_after(rects, earlier, cursor),
            r.from,
            r.color,
            n,
            m,
            point_after(rects, earlier, start),
        );
        let k = order.len() - 1;
        assert(order[k] == order.last());
        assert(order.take(k) =~= earlier);
        assert(rects[order[k]].to == (Point { x: n as i32, y: m as i32 }));
        assert(in_order(rects, order) =~= in_order(rects, earlier).push(r));
        assert(in_order(rects, earlier) + seq![r] =~= in_order(rects, earlier).push(r));
    }
}

/// From the program that the scheduler makes of rectangles, the rectangles
/// can be had again, as a set.
///
/// This holds where the scheduler can paint every rectangle, the prior
/// instructions colour nothing, and every rectangle can be told from the
/// instructions that paint it. What is had again is then the rectangles in
/// the order in which they are painted: as many as there were, and each of
/// them among them.
pub proof fn lemma_round_trip(
    rects: Seq<SolutionRect>,
    n: int,
    m: int,
    prior: Seq<OpView>,
    cursor: nat,
)
    requires
        schedulable(rects),
        recovered(prior, n, m, Point::origin()).len() == 0,
        told_apart(rects, paint_order(rects), n, m, last_point(prior, Point::origin())),
    ensures
        recovered(prior + emitted(rects, paint_order(rects), cursor), n, m, Point::origin())
            == in_order(rects, paint_order(rects)),
        recovered(prior + emitted(rects, paint_order(rects), cursor), n, m, Point::origin()).len()
            == rects.len(),
        forall|r: SolutionRect|
            rects.contains(r) <==> recovered(
                prior + emitted(rects, paint_order(rects), cursor),
                n,
                m,
                Point::origin(),
            ).contains(r),
{
    let order = paint_order(rects);
    let back = recovered(prior + emitted(rects, order, cursor), n, m, Point::origin());
    lemma_recovered_concat(prior, emitted(rects, order, cursor), n, m, Point::origin());
    lemma_recovered_emitted(rects, order, cursor, n, m, last_point(prior, Point::origin()));
    assert(back =~= in_order(rects, order));
    lemma_paint_order_valid(rects);
    lemma_run_passes(rects, Seq::empty(), rects.len());
    lemma_orderly_len(rects, order);
    assert forall|r: SolutionRect| rects.contains(r) <==> back.contains(r) by {
        if rects.contains(r) {
            let i = choose|i: int| 0 <= i < rects.len() && rects[i] == r;
            assert(order.contains(i));
            let k = choose|k: int| 0 <= k < order.len() && order[k] == i;
            assert(back[k] == r);
        }
        if back.contains(r) {
            let k = choose|k: int| 0 <= k < back.len() && back[k] == r;
            assert(rects[order[k]] == r);
        }
    }
}

/// Every rectangle can be told from the instructions that paint it where
/// all rectangles reach to the upper right corner of the canvas and none
/// starts at the origin; or where they all reach there, the canvas is not
/// empty, and no cut was made before.
pub proof fn lemma_told_apart(rects: Seq<SolutionRect>, n: int, m: int, start: Point)
    requires
        schedulable(rects),
        forall|i: int|
            0 <= i < rects.len() ==> (#[trigger] rects[i]).to == (Point {
                x: n as i32,
                y: m as i32,
            }),
        (forall|i: int| 0 <= i < rects.len() ==> (#[trigger] rects[i]).from != Point::origin()) || (
        0 < n <= i32::MAX && 0 < m <= i32::MAX && start == Point::origin()),
    ensures
        told_apart(rects, paint_order(rects), n, m, start),
{
    let order = paint_order(rects);
    lemma_paint_order_valid(rects);
    assert forall|k: int| 0 <= k < order.len() implies (#[trigger] rects[order[k]]).to == (Point {
        x: n as i32,
        y: m as i32,
    }) && (rects[order[k]].from == Point::origin() ==> point_after(rects, order.take(k), start)
        == Point::origin()) by {
        assert(0 <= order[k] < rects.len());
        if rects[order[k]].from == Point::origin() {
            if k > 0 {
                assert(0 <= order[0] < rects.len());
                assert(order[0] != order[k] && !must_precede(rects, order[k], order[0]));
                assert(rects[order[0]].to == (Point { x: n as i32, y: m as i32 }));
            } else {
                assert(order.take(0).len() == 0);
            }
        }
    }
}

} // verus!
