//! The safety check behind deadlock detection.
//!
//! Resources are numbered `0..m`, tasks `0..n`. `available[j]` units of resource
//! `j` are free, task `i` holds `allocation[i][j]` units of it and asks for
//! `request[i][j]` more. A task that is not alive holds nothing that can be
//! handed back and asks for nothing. The state is safe when the tasks can finish
//! one after another, each one's request covered by what is free plus what the
//! tasks that finished before it gave back; it is deadlocked when no such order
//! exists.

use vstd::prelude::*;

verus! {

/// The rows of a matrix stored as a vector of vectors.
pub open spec fn rows(v: Seq<Vec<usize>>) -> Seq<Seq<usize>> {
    Seq::new(v.len(), |i: int| v[i]@)
}

/// What task `i` gives back of resource `j` when it finishes: its allocation if it
/// is alive, nothing otherwise.
pub open spec fn held(allocation: Seq<Seq<usize>>, alive: Seq<bool>, i: int, j: int) -> nat {
    if alive[i] {
        allocation[i][j] as nat
    } else {
        0
    }
}

/// The units of resource `j` given back by the tasks `i < k` that `flags` marks
/// as finished.
pub open spec fn released(
    allocation: Seq<Seq<usize>>,
    alive: Seq<bool>,
    flags: Seq<bool>,
    j: int,
    k: int,
) -> nat
    decreases k,
{
    if k <= 0 {
        0
    } else {
        released(allocation, alive, flags, j, k - 1) + (if flags[k - 1] {
            held(allocation, alive, k - 1, j)
        } else {
            0
        })
    }
}

/// The sum of column `j` over the rows `i < k`.
pub open spec fn column_total(allocation: Seq<Seq<usize>>, j: int, k: int) -> nat
    decreases k,
{
    if k <= 0 {
        0
    } else {
        column_total(allocation, j, k - 1) + allocation[k - 1][j] as nat
    }
}

/// The units of resource `j` at hand once the tasks marked in `flags` finished.
pub open spec fn work_after(
    available: Seq<usize>,
    allocation: Seq<Seq<usize>>,
    alive: Seq<bool>,
    flags: Seq<bool>,
    j: int,
) -> int {
    available[j] + released(allocation, alive, flags, j, flags.len() as int)
}

/// Whether every entry of a request row is covered once the tasks marked in
/// `flags` finished.
pub open spec fn covered(
    available: Seq<usize>,
    allocation: Seq<Seq<usize>>,
    alive: Seq<bool>,
    row: Seq<usize>,
    flags: Seq<bool>,
) -> bool {
    forall|j: int|
        0 <= j < available.len() ==> row[j] <= #[trigger] work_after(
            available,
            allocation,
            alive,
            flags,
            j,
        )
}

/// The tasks that come before position `k` of `order`, as flags over `0..n`.
pub open spec fn finished_before(order: Seq<int>, k: int, n: nat) -> Seq<bool> {
    Seq::new(n, |x: int| order.take(k).contains(x))
}

/// A safe completion order: each task appears exactly once, and the request of
/// each live task is covered by what is free plus what the tasks before it give
/// back.
pub open spec fn is_safe_order(
    available: Seq<usize>,
    allocation: Seq<Seq<usize>>,
    request: Seq<Seq<usize>>,
    alive: Seq<bool>,
    order: Seq<int>,
) -> bool {
    let n = alive.len();
    &&& order.no_duplicates()
    &&& forall|k: int| 0 <= k < order.len() ==> 0 <= #[trigger] order[k] < n
    &&& forall|i: int| 0 <= i < n ==> order.contains(i)
    &&& forall|k: int|
        0 <= k < order.len() && alive[order[k]] ==> covered(
            available,
            allocation,
            alive,
            #[trigger] request[order[k]],
            finished_before(order, k, n),
        )
}

/// The state is deadlocked when no safe completion order exists.
pub open spec fn deadlocked(
    available: Seq<usize>,
    allocation: Seq<Seq<usize>>,
    request: Seq<Seq<usize>>,
    alive: Seq<bool>,
) -> bool {
    !exists|order: Seq<int>| is_safe_order(available, allocation, request, alive, order)
}

/// One row per task, one column per resource.
pub open spec fn well_shaped(
    available: Seq<usize>,
    allocation: Seq<Seq<usize>>,
    request: Seq<Seq<usize>>,
    alive: Seq<bool>,
) -> bool {
    &&& allocation.len() == alive.len()
    &&& request.len() == alive.len()
    &&& forall|i: int| 0 <= i < alive.len() ==> #[trigger] allocation[i].len() == available.len()
    &&& forall|i: int| 0 <= i < alive.len() ==> #[trigger] request[i].len() == available.len()
}

/// No count of units of one resource can exceed a machine word.
pub open spec fn fits_in_word(available: Seq<usize>, allocation: Seq<Seq<usize>>) -> bool {
    forall|j: int|
        0 <= j < available.len() ==> available[j] + #[trigger] column_total(
            allocation,
            j,
            allocation.len() as int,
        ) <= usize::MAX
}

/// The number of tasks that `flags` does not mark.
pub open spec fn unfinished(flags: Seq<bool>, k: int) -> nat
    decreases k,
{
    if k <= 0 {
        0
    } else {
        unfinished(flags, k - 1) + (if flags[k - 1] {
            0nat
        } else {
            1nat
        })
    }
}

/// What the detection keeps true: the finished tasks are those of `order`, and
/// each of them was covered when it finished.
pub open spec fn progress(
    available: Seq<usize>,
    allocation: Seq<Seq<usize>>,
    request: Seq<Seq<usize>>,
    alive: Seq<bool>,
    fin: Seq<bool>,
    order: Seq<int>,
) -> bool {
    let n = alive.len();
    &&& fin.len() == n
    &&& order.no_duplicates()
    &&& forall|k: int| 0 <= k < order.len() ==> 0 <= #[trigger] order[k] < n
    &&& forall|x: int| 0 <= x < n ==> (fin[x] <==> order.contains(x))
    &&& forall|k: int|
        0 <= k < order.len() && alive[order[k]] ==> covered(
            available,
            allocation,
            alive,
            #[trigger] request[order[k]],
            finished_before(order, k, n),
        )
}

/// A column whose only nonzero entry is a 1 in row `o` (if `o` is a row) sums to
/// 1 over the rows before `k` exactly when `o` is one of them.
pub proof fn lemma_column_single(allocation: Seq<Seq<usize>>, j: int, o: int, k: int)
    requires
        0 <= k <= allocation.len(),
        forall|t: int|
            0 <= t < allocation.len() ==> #[trigger] allocation[t][j] == (if t == o {
                1usize
            } else {
                0usize
            }),
    ensures
        column_total(allocation, j, k) == (if 0 <= o < k {
            1nat
        } else {
            0nat
        }),
    decreases k,
{
    if k > 0 {
        lemma_column_single(allocation, j, o, k - 1);
        assert(allocation[k - 1][j] == (if k - 1 == o {
            1usize
        } else {
            0usize
        }));
    }
}

/// Asking for more never hides a deadlock: with the same free and held units,
/// a state whose requests are all at least those of a deadlocked state is
/// deadlocked too.
pub proof fn law_more_requests_stay_deadlocked(
    available: Seq<usize>,
    allocation: Seq<Seq<usize>>,
    fewer: Seq<Seq<usize>>,
    more: Seq<Seq<usize>>,
    alive: Seq<bool>,
)
    requires
        forall|i: int, j: int|
            0 <= i < alive.len() && 0 <= j < available.len() ==> #[trigger] fewer[i][j]
                <= #[trigger] more[i][j],
    ensures
        deadlocked(available, allocation, fewer, alive) ==> deadlocked(
            available,
            allocation,
            more,
            alive,
        ),
{
    assert forall|order: Seq<int>|
        is_safe_order(available, allocation, more, alive, order) implies is_safe_order(
        available,
        allocation,
        fewer,
        alive,
        order,
    ) by {
        let n = alive.len();
        assert forall|k: int|
            0 <= k < order.len() && alive[order[k]] implies covered(
            available,
            allocation,
            alive,
            #[trigger] fewer[order[k]],
            finished_before(order, k, n),
        ) by {
            assert(covered(available, allocation, alive, more[order[k]], finished_before(order, k, n)));
            assert forall|j: int| 0 <= j < available.len() implies fewer[order[k]][j]
                <= #[trigger] work_after(available, allocation, alive, finished_before(order, k, n), j) by {
                assert(fewer[order[k]][j] <= more[order[k]][j]);
            }
        }
    }
}

/// When the only holder of resource `j` (row `o`, if any) has not finished,
/// nothing of `j` has been given back.
pub proof fn lemma_released_without_holder(
    allocation: Seq<Seq<usize>>,
    alive: Seq<bool>,
    flags: Seq<bool>,
    j: int,
    o: int,
    k: int,
)
    requires
        k <= flags.len(),
        k <= allocation.len(),
        forall|t: int|
            0 <= t < allocation.len() ==> #[trigger] allocation[t][j] == (if t == o {
                1usize
            } else {
                0usize
            }),
        0 <= o < k ==> !flags[o],
    ensures
        released(allocation, alive, flags, j, k) == 0,
    decreases k,
{
    if k > 0 {
        lemma_released_without_holder(allocation, alive, flags, j, o, k - 1);
        assert(allocation[k - 1][j] == (if k - 1 == o {
            1usize
        } else {
            0usize
        }));
    }
}

/// A finished task has given back all it holds.
pub proof fn lemma_released_includes(
    allocation: Seq<Seq<usize>>,
    alive: Seq<bool>,
    flags: Seq<bool>,
    j: int,
    o: int,
    k: int,
)
    requires
        0 <= o < k <= flags.len(),
        flags[o],
    ensures
        released(allocation, alive, flags, j, k) >= held(allocation, alive, o, j),
    decreases k,
{
    if k - 1 > o {
        lemma_released_includes(allocation, alive, flags, j, o, k - 1);
    }
}

proof fn lemma_released_nothing(
    allocation: Seq<Seq<usize>>,
    alive: Seq<bool>,
    flags: Seq<bool>,
    j: int,
    k: int,
)
    requires
        k <= flags.len(),
        forall|x: int| 0 <= x < k ==> !flags[x],
    ensures
        released(allocation, alive, flags, j, k) == 0,
    decreases k,
{
    if k > 0 {
        lemma_released_nothing(allocation, alive, flags, j, k - 1);
    }
}

proof fn lemma_released_finish(
    allocation: Seq<Seq<usize>>,
    alive: Seq<bool>,
    flags: Seq<bool>,
    i: int,
    j: int,
    k: int,
)
    requires
        0 <= i < flags.len(),
        k <= flags.len(),
        !flags[i],
    ensures
        released(allocation, alive, flags.update(i, true), j, k) == released(
            allocation,
            alive,
            flags,
            j,
            k,
        ) + (if i < k {
            held(allocation, alive, i, j)
        } else {
            0
        }),
        unfinished(flags.update(i, true), k) + (if i < k {
            1int
        } else {
            0
        }) == unfinished(flags, k),
    decreases k,
{
    if k > 0 {
        lemma_released_finish(allocation, alive, flags, i, j, k - 1);
    }
}

proof fn lemma_released_monotone(
    allocation: Seq<Seq<usize>>,
    alive: Seq<bool>,
    small: Seq<bool>,
    large: Seq<bool>,
    j: int,
    k: int,
)
    requires
        k <= small.len(),
        k <= large.len(),
        forall|x: int| 0 <= x < k && #[trigger] small[x] ==> large[x],
    ensures
        released(allocation, alive, small, j, k) <= released(allocation, alive, large, j, k),
    decreases k,
{
    if k > 0 {
        lemma_released_monotone(allocation, alive, small, large, j, k - 1);
    }
}

proof fn lemma_released_bounded(
    allocation: Seq<Seq<usize>>,
    alive: Seq<bool>,
    flags: Seq<bool>,
    j: int,
    k: int,
)
    ensures
        released(allocation, alive, flags, j, k) <= column_total(allocation, j, k),
    decreases k,
{
    if k > 0 {
        lemma_released_bounded(allocation, alive, flags, j, k - 1);
    }
}

/// Finishing task `i` keeps `progress` when the task is still unfinished and, if
/// alive, covered by what is at hand.
proof fn lemma_finish_task(
    available: Seq<usize>,
    allocation: Seq<Seq<usize>>,
    request: Seq<Seq<usize>>,
    alive: Seq<bool>,
    fin: Seq<bool>,
    order: Seq<int>,
    i: int,
)
    requires
        progress(available, allocation, request, alive, fin, order),
        0 <= i < alive.len(),
        !fin[i],
        alive[i] ==> covered(available, allocation, alive, request[i], fin),
    ensures
        progress(available, allocation, request, alive, fin.update(i, true), order.push(i)),
        forall|j: int|
            #![trigger work_after(available, allocation, alive, fin.update(i, true), j)]
            work_after(available, allocation, alive, fin.update(i, true), j) == work_after(
                available,
                allocation,
                alive,
                fin,
                j,
            ) + held(allocation, alive, i, j),
        unfinished(fin.update(i, true), alive.len() as int) + 1 == unfinished(
            fin,
            alive.len() as int,
        ),
{
    let n = alive.len();
    let fin2 = fin.update(i, true);
    let order2 = order.push(i);
    assert(!order.contains(i));
    assert forall|j: int|
        #![trigger work_after(available, allocation, alive, fin2, j)]
        work_after(available, allocation, alive, fin2, j) == work_after(
            available,
            allocation,
            alive,
            fin,
            j,
        ) + held(allocation, alive, i, j) by {
        lemma_released_finish(allocation, alive, fin, i, j, n as int);
    }
    lemma_released_finish(allocation, alive, fin, i, 0, n as int);
    assert forall|x: int| 0 <= x < n implies (fin2[x] <==> order2.contains(x)) by {
        if x == i {
            assert(order2[order.len() as int] == i);
        } else {
            if order2.contains(x) {
                let k = choose|k: int| 0 <= k < order2.len() && order2[k] == x;
                assert(order[k] == x);
            }
            if order.contains(x) {
                let k = choose|k: int| 0 <= k < order.len() && order[k] == x;
                assert(order2[k] == x);
            }
        }
    }
    assert forall|k: int|
        0 <= k < order2.len() && alive[order2[k]] implies covered(
        available,
        allocation,
        alive,
        #[trigger] request[order2[k]],
        finished_before(order2, k, n),
    ) by {
        if k < order.len() {
            assert(order2.take(k) =~= order.take(k));
            assert(finished_before(order2, k, n) =~= finished_before(order, k, n));
            assert(order2[k] == order[k]);
        } else {
            assert(order2.take(k) =~= order);
            assert(finished_before(order2, k, n) =~= fin);
        }
    }
}

/// At a point where no unfinished task is covered, some task stays unfinished in
/// every order: no safe order exists.
proof fn lemma_stuck_means_deadlock(
    available: Seq<usize>,
    allocation: Seq<Seq<usize>>,
    request: Seq<Seq<usize>>,
    alive: Seq<bool>,
    fin: Seq<bool>,
    x: int,
)
    requires
        well_shaped(available, allocation, request, alive),
        fin.len() == alive.len(),
        0 <= x < alive.len(),
        !fin[x],
        forall|y: int|
            0 <= y < alive.len() && !#[trigger] fin[y] ==> alive[y] && !covered(
                available,
                allocation,
                alive,
                request[y],
                fin,
            ),
    ensures
        deadlocked(available, allocation, request, alive),
{
    let n = alive.len();
    assert forall|order: Seq<int>|
        !is_safe_order(available, allocation, request, alive, order) by {
        if is_safe_order(available, allocation, request, alive, order) {
            assert(order.contains(x));
            let k0 = choose|k: int| 0 <= k < order.len() && order[k] == x;
            let k = lemma_first_unfinished(order, fin, n, 0, k0);
            let t = order[k];
            assert(alive[t]);
            let fb = finished_before(order, k, n);
            assert(covered(available, allocation, alive, request[t], fb));
            assert(!covered(available, allocation, alive, request[t], fin));
            let j = choose|j: int|
                0 <= j < available.len() && !(request[t][j] <= work_after(
                    available,
                    allocation,
                    alive,
                    fin,
                    j,
                ));
            assert forall|y: int| 0 <= y < n && #[trigger] fb[y] implies fin[y] by {
                assert(order.take(k).contains(y));
                let l = choose|l: int| 0 <= l < order.take(k).len() && order.take(k)[l] == y;
                assert(order[l] == y);
            }
            lemma_released_monotone(allocation, alive, fb, fin, j, n as int);
            assert(request[t][j] <= work_after(available, allocation, alive, fb, j));
            assert(false);
        }
    }
}

proof fn lemma_first_unfinished(order: Seq<int>, fin: Seq<bool>, n: nat, lo: int, k0: int) -> (k:
    int)
    requires
        0 <= lo <= k0 < order.len(),
        fin.len() == n,
        forall|l: int| 0 <= l < order.len() ==> 0 <= #[trigger] order[l] < n,
        !fin[order[k0]],
        forall|l: int| 0 <= l < lo ==> fin[#[trigger] order[l]],
    ensures
        lo <= k <= k0,
        !fin[order[k]],
        forall|l: int| 0 <= l < k ==> fin[#[trigger] order[l]],
    decreases k0 - lo,
{
    if !fin[order[lo]] {
        lo
    } else {
        lemma_first_unfinished(order, fin, n, lo + 1, k0)
    }
}

/// Whether some entry of the row is positive.
fn any_positive(row: &Vec<usize>) -> (r: bool)
    ensures
        r == exists|j: int| 0 <= j < row@.len() && row@[j] > 0,
{
    let mut j: usize = 0;
    while j < row.len()
        invariant
            j <= row@.len(),
            forall|l: int| 0 <= l < j ==> row@[l] == 0,
        decreases row@.len() - j,
    {
        if row[j] > 0 {
            return true;
        }
        j = j + 1;
    }
    false
}

/// Whether every entry of `row` is at most the matching entry of `work`.
fn within(row: &Vec<usize>, work: &Vec<usize>) -> (r: bool)
    requires
        row@.len() == work@.len(),
    ensures
        r == forall|j: int| 0 <= j < row@.len() ==> row@[j] <= work@[j],
{
    let mut j: usize = 0;
    while j < row.len()
        invariant
            row@.len() == work@.len(),
            j <= row@.len(),
            forall|l: int| 0 <= l < j ==> row@[l] <= work@[l],
        decreases row@.len() - j,
    {
        if row[j] > work[j] {
            return false;
        }
        j = j + 1;
    }
    true
}

/// Add `row` to `work`, entry by entry.
fn absorb(work: &mut Vec<usize>, row: &Vec<usize>)
    requires
        old(work)@.len() == row@.len(),
        forall|j: int| 0 <= j < row@.len() ==> old(work)@[j] + row@[j] <= usize::MAX,
    ensures
        final(work)@.len() == old(work)@.len(),
        forall|j: int| 0 <= j < row@.len() ==> final(work)@[j] == old(work)@[j] + row@[j],
{
    let ghost start = work@;
    let mut j: usize = 0;
    while j < row.len()
        invariant
            start.len() == row@.len(),
            work@.len() == row@.len(),
            j <= row@.len(),
            forall|l: int| 0 <= l < row@.len() ==> start[l] + row@[l] <= usize::MAX,
            forall|l: int| 0 <= l < j ==> work@[l] == start[l] + row@[l],
            forall|l: int| j <= l < row@.len() ==> work@[l] == start[l],
        decreases row@.len() - j,
    {
        assert(work@[j as int] == start[j as int]);
        assert(start[j as int] + row@[j as int] <= usize::MAX);
        let v = work[j] + row[j];
        work.set(j, v);
        j = j + 1;
    }
}

/// Run the safety check: returns `true` exactly when no safe completion order
/// exists. Tasks that are not alive finish at once and give nothing back; the
/// others finish, giving back their allocation, as soon as their request is
/// covered, until no further task can.
pub fn detect_deadlock(
    available: &Vec<usize>,
    allocation: &Vec<Vec<usize>>,
    request: &Vec<Vec<usize>>,
    alive: &Vec<bool>,
) -> (r: bool)
    requires
        well_shaped(available@, rows(allocation@), rows(request@), alive@),
        fits_in_word(available@, rows(allocation@)),
    ensures
        r == deadlocked(available@, rows(allocation@), rows(request@), alive@),
{
    let ghost av = available@;
    let ghost al = rows(allocation@);
    let ghost rq = rows(request@);
    let ghost li = alive@;
    let n = alive.len();
    let m = available.len();

    let mut work: Vec<usize> = Vec::new();
    let mut j: usize = 0;
    while j < m
        invariant
            m == av.len(),
            av == available@,
            j <= m,
            work@ == av.take(j as int),
        decreases m - j,
    {
        work.push(available[j]);
        j = j + 1;
        assert(work@ =~= av.take(j as int));
    }
    assert(work@ =~= av);
    let mut finish: Vec<bool> = Vec::new();
    let mut i: usize = 0;
    while i < n
        invariant
            n == li.len(),
            i <= n,
            finish@.len() == i,
            forall|x: int| 0 <= x < i ==> !finish@[x],
        decreases n - i,
    {
        finish.push(false);
        i = i + 1;
    }
    let ghost mut order: Seq<int> = Seq::empty();
    proof {
        assert forall|jj: int| 0 <= jj < m implies work@[jj] == #[trigger] work_after(
            av,
            al,
            li,
            finish@,
            jj,
        ) by {
            lemma_released_nothing(al, li, finish@, jj, n as int);
        }
    }

    // First pass: dead tasks, and live tasks that ask for nothing, finish.
    let mut i: usize = 0;
    while i < n
        invariant
            n == li.len(),
            m == av.len(),
            av == available@,
            al == rows(allocation@),
            rq == rows(request@),
            li == alive@,
            well_shaped(av, al, rq, li),
            fits_in_word(av, al),
            i <= n,
            work@.len() == m,
            progress(av, al, rq, li, finish@, order),
            forall|jj: int|
                0 <= jj < m ==> work@[jj] == #[trigger] work_after(av, al, li, finish@, jj),
            forall|x: int| i <= x < n ==> !finish@[x],
            forall|x: int| 0 <= x < i && !li[x] ==> finish@[x],
        decreases n - i,
    {
        if !alive[i] {
            proof {
                lemma_finish_task(av, al, rq, li, finish@, order, i as int);
                order = order.push(i as int);
            }
            finish.set(i, true);
        } else {
            let is_requesting = any_positive(&request[i]);
            if !is_requesting {
                proof {
                    assert(rq[i as int] == request@[i as int]@);
                    assert forall|jj: int| 0 <= jj < m implies rq[i as int][jj] <= #[trigger] work_after(
                        av,
                        al,
                        li,
                        finish@,
                        jj,
                    ) by {
                        assert(!(request@[i as int]@[jj] > 0));
                    }
                    lemma_finish_task(av, al, rq, li, finish@, order, i as int);
                    assert forall|jj: int| 0 <= jj < m implies work@[jj] + allocation@[i as int]@[jj]
                        <= usize::MAX by {
                        let f2 = finish@.update(i as int, true);
                        assert(work_after(av, al, li, f2, jj) == work@[jj] + held(al, li, i as int, jj));
                        lemma_released_bounded(al, li, f2, jj, n as int);
                    }
                }
                proof {
                    assert(al[i as int] == allocation@[i as int]@);
                    assert(al[i as int].len() == m);
                }
                absorb(&mut work, &allocation[i]);
                proof {
                    order = order.push(i as int);
                }
                finish.set(i, true);
            }
        }
        i = i + 1;
    }

    // Then repeat passes until one finishes no task.
    loop
        invariant
            n == li.len(),
            m == av.len(),
            av == available@,
            al == rows(allocation@),
            rq == rows(request@),
            li == alive@,
            well_shaped(av, al, rq, li),
            fits_in_word(av, al),
            work@.len() == m,
            progress(av, al, rq, li, finish@, order),
            forall|jj: int|
                0 <= jj < m ==> work@[jj] == #[trigger] work_after(av, al, li, finish@, jj),
            forall|x: int| 0 <= x < n && !li[x] ==> finish@[x],
        ensures
            progress(av, al, rq, li, finish@, order),
            forall|x: int|
                0 <= x < n && !#[trigger] finish@[x] ==> li[x] && !covered(
                    av,
                    al,
                    li,
                    rq[x],
                    finish@,
                ),
        decreases unfinished(finish@, n as int),
    {
        let ghost start = finish@;
        let mut found = false;
        let mut i: usize = 0;
        while i < n
            invariant
                n == li.len(),
                m == av.len(),
                av == available@,
                al == rows(allocation@),
                rq == rows(request@),
                li == alive@,
                well_shaped(av, al, rq, li),
                fits_in_word(av, al),
                i <= n,
                work@.len() == m,
                start.len() == n,
                progress(av, al, rq, li, finish@, order),
                forall|jj: int|
                    0 <= jj < m ==> work@[jj] == #[trigger] work_after(av, al, li, finish@, jj),
                forall|x: int| 0 <= x < n && !li[x] ==> finish@[x],
                !found ==> finish@ == start,
                found ==> unfinished(finish@, n as int) < unfinished(start, n as int),
                unfinished(finish@, n as int) <= unfinished(start, n as int),
                !found ==> forall|x: int|
                    0 <= x < i && !#[trigger] finish@[x] ==> !covered(av, al, li, rq[x], finish@),
            decreases n - i,
        {
            if !finish[i] {
                proof {
                    assert(rq[i as int] == request@[i as int]@);
                    assert(rq[i as int].len() == m);
                }
                let can_satisfy = within(&request[i], &work);
                proof {
                    assert(rq[i as int] == request@[i as int]@);
                }
                if can_satisfy {
                    proof {
                        assert forall|jj: int| 0 <= jj < m implies rq[i as int][jj]
                            <= #[trigger] work_after(av, al, li, finish@, jj) by {
                            assert(request@[i as int]@[jj] <= work@[jj]);
                        }
                        lemma_finish_task(av, al, rq, li, finish@, order, i as int);
                        assert forall|jj: int| 0 <= jj < m implies work@[jj]
                            + allocation@[i as int]@[jj] <= usize::MAX by {
                            let f2 = finish@.update(i as int, true);
                            assert(work_after(av, al, li, f2, jj) == work@[jj] + held(
                                al,
                                li,
                                i as int,
                                jj,
                            ));
                            lemma_released_bounded(al, li, f2, jj, n as int);
                        }
                    }
                    proof {
                    assert(al[i as int] == allocation@[i as int]@);
                    assert(al[i as int].len() == m);
                }
                absorb(&mut work, &allocation[i]);
                    proof {
                        order = order.push(i as int);
                    }
                    finish.set(i, true);
                    found = true;
                } else {
                    proof {
                        if !found {
                            let jj = choose|jj: int|
                                0 <= jj < m && !(request@[i as int]@[jj] <= work@[jj]);
                            assert(work@[jj] == work_after(av, al, li, finish@, jj));
                            assert(!covered(av, al, li, rq[i as int], finish@));
                        }
                    }
                }
            }
            i = i + 1;
        }
        if !found {
            break;
        }
    }

    let mut all = true;
    let mut i: usize = 0;
    while i < n
        invariant
            n == finish@.len(),
            i <= n,
            all == forall|x: int| 0 <= x < i ==> finish@[x],
        decreases n - i,
    {
        if !finish[i] {
            all = false;
        }
        i = i + 1;
    }
    proof {
        if all {
            assert(is_safe_order(av, al, rq, li, order));
        } else {
            let x = choose|x: int| 0 <= x < n && !finish@[x];
            lemma_stuck_means_deadlock(av, al, rq, li, finish@, x);
        }
    }
    !all
}

} // verus!
