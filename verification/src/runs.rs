//! Maximal runs of positions that share a property.
use vstd::prelude::*;

verus! {

/// The maximal half-open runs `[start, end)` of positions below `n` at which
/// `flag` holds, in ascending order.
pub open spec fn runs(flag: spec_fn(int) -> bool, n: int) -> Seq<(int, int)>
    decreases n,
{
    if n <= 0 {
        Seq::empty()
    } else if !flag(n - 1) {
        runs(flag, n - 1)
    } else if n >= 2 && flag(n - 2) {
        runs(flag, n - 1).drop_last().push((runs(flag, n - 1).last().0, n))
    } else {
        runs(flag, n - 1).push((n - 1, n))
    }
}

/// The sum of the lengths of runs.
pub open spec fn total_len(list: Seq<(int, int)>) -> int
    decreases list.len(),
{
    if list.len() == 0 {
        0
    } else {
        total_len(list.drop_last()) + list.last().1 - list.last().0
    }
}

/// The runs seen so far while scanning: those that are closed, and the open one
/// that reaches up to the scan position.
pub open spec fn scanned(closed: Seq<(usize, usize)>, open_start: Option<usize>, at: int) -> Seq<
    (int, int),
> {
    let done = Seq::new(closed.len(), |k: int| (closed[k].0 as int, closed[k].1 as int));
    match open_start {
        Some(start) => done.push((start as int, at)),
        None => done,
    }
}

/// The model of a list of runs.
pub open spec fn run_views(list: Seq<(usize, usize)>) -> Seq<(int, int)> {
    Seq::new(list.len(), |k: int| (list[k].0 as int, list[k].1 as int))
}

/// Every run is a non-empty interval within the scanned positions, consists of
/// flagged positions only, and starts after the previous one has ended; the last
/// one reaches the end exactly when the last position is flagged.
pub proof fn lemma_runs_shape(flag: spec_fn(int) -> bool, n: int)
    requires
        n >= 0,
    ensures
        forall|k: int| #![trigger runs(flag, n)[k]]
            0 <= k < runs(flag, n).len() ==> {
                &&& 0 <= runs(flag, n)[k].0 < runs(flag, n)[k].1 <= n
                &&& (forall|i: int| runs(flag, n)[k].0 <= i < runs(flag, n)[k].1 ==> #[trigger] flag(i))
            },
        forall|k: int| #![trigger runs(flag, n)[k]]
            0 < k < runs(flag, n).len() ==> runs(flag, n)[k - 1].1 < runs(flag, n)[k].0,
        n > 0 && flag(n - 1) <==> runs(flag, n).len() > 0 && runs(flag, n).last().1 == n,
    decreases n,
{
    if n > 0 {
        lemma_runs_shape(flag, n - 1);
        let prev = runs(flag, n - 1);
        let now = runs(flag, n);
        if flag(n - 1) && n >= 2 && flag(n - 2) {
            assert forall|k: int| 0 <= k < now.len() implies ({
                &&& 0 <= #[trigger] now[k].0 < now[k].1 <= n
                &&& (forall|i: int| now[k].0 <= i < now[k].1 ==> #[trigger] flag(i))
            }) by {
                if k < now.len() - 1 {
                    assert(now[k] == prev[k]);
                } else {
                    assert(now[k].0 == prev.last().0);
                    assert(prev[prev.len() - 1].1 == n - 1);
                }
            }
            assert forall|k: int| 0 < k < now.len() implies #[trigger] now[k - 1].1 < now[k].0 by {
                assert(now[k - 1] == prev[k - 1]);
                assert(now[k].0 == prev[k].0);
            }
        } else if flag(n - 1) {
            assert forall|k: int| 0 <= k < now.len() implies ({
                &&& 0 <= #[trigger] now[k].0 < now[k].1 <= n
                &&& (forall|i: int| now[k].0 <= i < now[k].1 ==> #[trigger] flag(i))
            }) by {
                if k < now.len() - 1 {
                    assert(now[k] == prev[k]);
                }
            }
            assert forall|k: int| 0 < k < now.len() implies #[trigger] now[k - 1].1 < now[k].0 by {
                assert(now[k - 1] == prev[k - 1]);
                if k < now.len() - 1 {
                    assert(now[k].0 == prev[k].0);
                } else {
                    assert(prev[k - 1].1 <= n - 1);
                    assert(prev.last() == prev[k - 1]);
                }
            }
        }
    }
}

/// A flagged position lies in one of the runs.
pub proof fn lemma_runs_cover(flag: spec_fn(int) -> bool, n: int, i: int) -> (k: int)
    requires
        0 <= i < n,
        flag(i),
    ensures
        0 <= k < runs(flag, n).len(),
        runs(flag, n)[k].0 <= i < runs(flag, n)[k].1,
    decreases n,
{
    lemma_runs_shape(flag, n - 1);
    lemma_runs_shape(flag, n);
    if i == n - 1 {
        let k = runs(flag, n).len() - 1;
        assert(runs(flag, n)[k].1 == n);
        k
    } else {
        let k = lemma_runs_cover(flag, n - 1, i);
        k
    }
}

/// Runs are disjoint, so together they are no longer than what they lie in.
pub proof fn lemma_total_len(flag: spec_fn(int) -> bool, n: int)
    requires
        n >= 0,
    ensures
        0 <= total_len(runs(flag, n)) <= n,
        forall|k: int|
            0 <= k <= runs(flag, n).len() ==> 0 <= #[trigger] total_len(runs(flag, n).take(k)) <= n,
{
    lemma_runs_shape(flag, n);
    let list = runs(flag, n);
    assert(list.take(list.len() as int) =~= list);
    assert forall|k: int| 0 <= k <= list.len() implies 0 <= #[trigger] total_len(list.take(k)) <= n
        by {
        lemma_total_len_prefix(flag, n, k);
    }
}

proof fn lemma_total_len_prefix(flag: spec_fn(int) -> bool, n: int, k: int)
    requires
        n >= 0,
        0 <= k <= runs(flag, n).len(),
    ensures
        0 <= total_len(runs(flag, n).take(k)),
        k > 0 ==> total_len(runs(flag, n).take(k)) <= runs(flag, n)[k - 1].1,
        total_len(runs(flag, n).take(k)) <= n,
    decreases k,
{
    lemma_runs_shape(flag, n);
    let list = runs(flag, n);
    if k > 0 {
        lemma_total_len_prefix(flag, n, k - 1);
        assert(list.take(k).drop_last() =~= list.take(k - 1));
        assert(list.take(k).last() == list[k - 1]);
        if k > 1 {
            assert(list[k - 2].1 < list[k - 1].0);
        }
    }
}

/// How many positions below `n` are flagged.
pub open spec fn flagged(flag: spec_fn(int) -> bool, n: int) -> int
    decreases n,
{
    if n <= 0 {
        0
    } else {
        flagged(flag, n - 1) + if flag(n - 1) {
            1int
        } else {
            0
        }
    }
}

/// The runs together hold exactly the flagged positions.
pub proof fn lemma_total_is_flagged(flag: spec_fn(int) -> bool, n: int)
    requires
        n >= 0,
    ensures
        total_len(runs(flag, n)) == flagged(flag, n),
    decreases n,
{
    if n > 0 {
        lemma_total_is_flagged(flag, n - 1);
        lemma_runs_shape(flag, n - 1);
        let prev = runs(flag, n - 1);
        let now = runs(flag, n);
        if flag(n - 1) {
            if n >= 2 && flag(n - 2) {
                assert(now.drop_last() =~= prev.drop_last());
            } else {
                assert(now.drop_last() =~= prev);
            }
        }
    }
}

/// The runs of at least `min` positions.
pub open spec fn long_runs(list: Seq<(int, int)>, min: int) -> Seq<(int, int)>
    decreases list.len(),
{
    if list.len() == 0 {
        Seq::empty()
    } else if list.last().1 - list.last().0 >= min {
        long_runs(list.drop_last(), min).push(list.last())
    } else {
        long_runs(list.drop_last(), min)
    }
}

/// Leaving runs out keeps the rest in bounds and makes the total no larger.
pub proof fn lemma_long_runs(list: Seq<(int, int)>, min: int, n: int)
    requires
        forall|k: int|
            0 <= k < list.len() ==> 0 <= (#[trigger] list[k]).0 && list[k].0 <= list[k].1
                && list[k].1 <= n,
    ensures
        0 <= total_len(long_runs(list, min)) <= total_len(list),
        forall|k: int|
            0 <= k < long_runs(list, min).len() ==> {
                let r = #[trigger] long_runs(list, min)[k];
                0 <= r.0 && r.0 <= r.1 && r.1 <= n && r.1 - r.0 >= min
            },
    decreases list.len(),
{
    if list.len() > 0 {
        lemma_long_runs(list.drop_last(), min, n);
        let kept = long_runs(list.drop_last(), min);
        if list.last().1 - list.last().0 >= min {
            assert(kept.push(list.last()).drop_last() =~= kept);
        }
    }
}

/// One step of a scan: the position just passed extends, opens or closes a run.
pub proof fn lemma_scan_step(
    flag: spec_fn(int) -> bool,
    closed: Seq<(usize, usize)>,
    open_start: Option<usize>,
    at: int,
)
    requires
        at >= 0,
        runs(flag, at) == scanned(closed, open_start, at),
        open_start is Some <==> at > 0 && flag(at - 1),
    ensures
        flag(at) && open_start is Some ==> runs(flag, at + 1) == scanned(
            closed,
            open_start,
            at + 1,
        ),
        flag(at) && open_start is None && at <= usize::MAX ==> runs(flag, at + 1) == scanned(
            closed,
            Some(at as usize),
            at + 1,
        ),
        !flag(at) && open_start is None ==> runs(flag, at + 1) == scanned(closed, None, at + 1),
        !flag(at) && open_start is Some && at <= usize::MAX ==> runs(flag, at + 1) == scanned(
            closed.push((open_start->0, at as usize)),
            None,
            at + 1,
        ),
{
    let now = runs(flag, at + 1);
    if flag(at) && open_start is Some {
        assert(now =~= scanned(closed, open_start, at + 1));
    } else if flag(at) && at <= usize::MAX {
        assert(now =~= scanned(closed, Some(at as usize), at + 1));
    } else if !flag(at) && open_start is None {
        assert(now =~= scanned(closed, None, at + 1));
    } else if !flag(at) && at <= usize::MAX {
        assert(now =~= scanned(closed.push((open_start->0, at as usize)), None, at + 1));
    }
}

/// The positions at which a byte has the given value.
pub open spec fn has_value(data: Seq<u8>, value: u8) -> spec_fn(int) -> bool {
    |i: int| data[i] == value
}

/// The runs of a byte value.
pub fn value_runs(data: &[u8], value: u8) -> (list: Vec<(usize, usize)>)
    ensures
        run_views(list@) == runs(has_value(data@, value), data@.len() as int),
{
    let ghost flag = has_value(data@, value);
    let n: usize = data.len();
    let mut list: Vec<(usize, usize)> = Vec::new();
    let mut start: Option<usize> = None;
    let mut i: usize = 0;
    proof {
        assert(scanned(list@, start, 0) =~= runs(flag, 0));
    }
    while i < n
        invariant
            i <= n,
            n == data@.len(),
            flag == has_value(data@, value),
            runs(flag, i as int) == scanned(list@, start, i as int),
            start is Some <==> i > 0 && flag(i - 1),
        decreases n - i,
    {
        proof {
            lemma_scan_step(flag, list@, start, i as int);
        }
        if data[i] == value {
            if start.is_none() {
                start = Some(i);
            }
        } else {
            match start {
                Some(s) => {
                    list.push((s, i));
                    start = None;
                },
                None => {},
            }
        }
        i += 1;
    }
    match start {
        Some(s) => {
            list.push((s, n));
        },
        None => {},
    }
    proof {
        assert(run_views(list@) =~= runs(flag, n as int));
    }
    list
}

} // verus!
