//! A chunk held as stretches of consecutive ordinals.
use super::words::starts;
use crate::count::{
    ascending, count, lemma_count_all, lemma_count_none, lemma_count_split, lemma_listing_unique,
};
use vstd::prelude::*;

verus! {

/// A stretch of ordinals from `start` to `last`, both included.
///
/// The end is inclusive rather than a length because a run covering a whole
/// chunk is 65536 long, which does not fit in the two bytes the start takes,
/// and that run is the one this representation exists for.
#[derive(Debug, Clone, Copy, PartialEq, Eq, Structural)]
pub struct Run {
    pub start: u16,
    pub last: u16,
}

/// Ascending, non overlapping, non adjacent stretches.
pub open spec fn runs_ok(runs: Seq<Run>) -> bool {
    &&& forall|i: int| 0 <= i < runs.len() ==> (#[trigger] runs[i]).start <= runs[i].last
    &&& forall|i: int, j: int|
        0 <= i < j < runs.len() ==> (#[trigger] runs[i]).last + 1 < (#[trigger] runs[j]).start
}

/// Whether one stretch covers `low`.
pub open spec fn spans(run: Run, low: int) -> bool {
    run.start <= low <= run.last
}

/// Whether one of the stretches covers `low`.
pub open spec fn in_runs(runs: Seq<Run>, low: int) -> bool {
    exists|i: int| 0 <= i < runs.len() && (#[trigger] runs[i]).start <= low <= runs[i].last
}

/// The stretches as a predicate on ordinals.
pub open spec fn runs_set(runs: Seq<Run>) -> spec_fn(int) -> bool {
    |low: int| in_runs(runs, low)
}

/// How many ordinals the first `n` stretches cover.
pub open spec fn covered_by(runs: Seq<Run>, n: int) -> nat
    decreases n,
{
    if n <= 0 {
        0
    } else {
        (covered_by(runs, n - 1) + (runs[n - 1].last - runs[n - 1].start + 1)) as nat
    }
}

/// The lengths of the stretches add up to the number of ordinals covered.
pub proof fn lemma_covered_by(runs: Seq<Run>, n: int)
    requires
        runs_ok(runs),
        0 <= n <= runs.len(),
    ensures
        covered_by(runs, n) == count(
            runs_set(runs),
            0,
            if n == 0 {
                0
            } else {
                runs[n - 1].last + 1
            },
        ),
    decreases n,
{
    if n > 0 {
        let f = runs_set(runs);
        let from = if n == 1 {
            0
        } else {
            runs[n - 2].last + 1
        };
        let run = runs[n - 1];
        lemma_covered_by(runs, n - 1);
        if n > 1 {
            assert(runs[n - 2].last + 1 < runs[n - 1].start);
        }
        lemma_count_split(f, 0, from, run.last + 1);
        lemma_count_split(f, from, run.start as int, run.last + 1);
        assert forall|x: int| from <= x < run.start implies !#[trigger] f(x) by {
            assert forall|k: int| 0 <= k < runs.len() implies !((#[trigger] runs[k]).start <= x
                <= runs[k].last) by {
                if k < n - 2 {
                    assert(runs[k].last + 1 < runs[n - 2].start);
                } else if k > n - 1 {
                    assert(runs[n - 1].last + 1 < runs[k].start);
                }
            }
        }
        lemma_count_none(f, from, run.start as int);
        assert forall|x: int| run.start <= x < run.last + 1 implies #[trigger] f(x) by {
            assert(runs[n - 1].start <= x <= runs[n - 1].last);
        }
        lemma_count_all(f, run.start as int, run.last + 1);
    }
}

/// Nothing lies past the last stretch.
pub proof fn lemma_past_runs(runs: Seq<Run>, x: int)
    requires
        runs_ok(runs),
        runs.len() == 0 || x > runs[runs.len() - 1].last,
    ensures
        !in_runs(runs, x),
{
    assert forall|k: int| 0 <= k < runs.len() implies !((#[trigger] runs[k]).start <= x
        <= runs[k].last) by {
        if k < runs.len() - 1 {
            assert(runs[k].last + 1 < runs[runs.len() - 1].start);
        }
    }
}

/// A run list covers as many ordinals as its lengths add up to.
pub proof fn lemma_runs_count(runs: Seq<Run>)
    requires
        runs_ok(runs),
    ensures
        count(runs_set(runs), 0, 65536) == covered_by(runs, runs.len() as int),
{
    let n = runs.len() as int;
    let f = runs_set(runs);
    lemma_covered_by(runs, n);
    let end = if n == 0 {
        0
    } else {
        runs[n - 1].last + 1
    };
    lemma_count_split(f, 0, end, 65536);
    assert forall|x: int| end <= x < 65536 implies !#[trigger] f(x) by {
        lemma_past_runs(runs, x);
    }
    lemma_count_none(f, end, 65536);
}

/// A run list has as many stretches as there are places where one starts.
pub proof fn lemma_runs_starts(runs: Seq<Run>)
    requires
        runs_ok(runs),
    ensures
        count(starts(runs_set(runs)), 0, 65536) == runs.len(),
{
    let f = runs_set(runs);
    let g = starts(f);
    let s = Seq::new(runs.len(), |i: int| runs[i].start);
    assert(ascending(s)) by {
        assert forall|i: int, j: int| 0 <= i < j < s.len() implies s[i] < s[j] by {
            assert(runs[i].last + 1 < runs[j].start);
        }
    }
    assert forall|i: int| 0 <= i < s.len() implies #[trigger] s[i] < 65536 && g(s[i] as int) by {
        let x = s[i] as int;
        assert(runs[i].start <= x <= runs[i].last);
        assert(f(x));
        if x > 0 {
            assert(!in_runs(runs, x - 1)) by {
                assert forall|k: int| 0 <= k < runs.len() implies !((#[trigger] runs[k]).start <= x
                    - 1 <= runs[k].last) by {
                    if k < i {
                        assert(runs[k].last + 1 < runs[i].start);
                    } else if k > i {
                        assert(runs[i].last + 1 < runs[k].start);
                    }
                }
            }
        }
    }
    assert forall|x: int| 0 <= x < 65536 && #[trigger] g(x) implies s.contains(x as u16) by {
        assert(in_runs(runs, x));
        let i = choose|i: int|
            0 <= i < runs.len() && (#[trigger] runs[i]).start <= x <= runs[i].last;
        if runs[i].start < x {
            assert(runs[i].start <= x - 1 <= runs[i].last);
            assert(f(x - 1));
        }
        assert(s[i] == x as u16);
    }
    lemma_listing_unique(s, g, 65536);
}

/// Where `low` sits among the runs, or where a run holding it would go.
pub fn covered(runs: &[Run], low: u16) -> (found: core::result::Result<usize, usize>)
    requires
        runs_ok(runs@),
    ensures
        match found {
            Ok(at) => at < runs@.len() && runs@[at as int].start <= low <= runs@[at as int].last
                && in_runs(runs@, low as int),
            Err(at) => at <= runs@.len() && !in_runs(runs@, low as int) && (forall|i: int|
                0 <= i < at ==> (#[trigger] runs@[i]).last < low) && (forall|i: int|
                at <= i < runs@.len() ==> low < (#[trigger] runs@[i]).start),
        },
{
    let mut lo: usize = 0;
    let mut hi: usize = runs.len();
    while lo < hi
        invariant
            lo <= hi <= runs@.len(),
            runs_ok(runs@),
            forall|i: int| 0 <= i < lo ==> (#[trigger] runs@[i]).last < low,
            forall|i: int| hi <= i < runs@.len() ==> low < (#[trigger] runs@[i]).start,
        decreases hi - lo,
    {
        let mid: usize = lo + (hi - lo) / 2;
        let run = runs[mid];
        if run.last < low {
            proof {
                assert forall|i: int| 0 <= i < mid + 1 implies (#[trigger] runs@[i]).last < low by {
                    if i < mid {
                        assert(runs@[i].last + 1 < runs@[mid as int].start);
                    }
                }
            }
            lo = mid + 1;
        } else if run.start > low {
            proof {
                assert forall|i: int| mid <= i < runs@.len() implies low < (
                #[trigger] runs@[i]).start by {
                    if i > mid {
                        assert(runs@[mid as int].last + 1 < runs@[i].start);
                    }
                }
            }
            hi = mid;
        } else {
            assert(runs@[mid as int].start <= low <= runs@[mid as int].last);
            return Ok(mid);
        }
    }
    Err(lo)
}

/// Adds `low` to a run list, joining the runs on either side if it closes a gap.
pub fn runs_insert(runs: &mut Vec<Run>, low: u16) -> (added: bool)
    requires
        runs_ok(old(runs)@),
    ensures
        runs_ok(final(runs)@),
        added == !in_runs(old(runs)@, low as int),
        forall|x: int|
            #[trigger] in_runs(final(runs)@, x) == (in_runs(old(runs)@, x) || x == low),
{
    let ghost before = runs@;
    let found = covered(runs.as_slice(), low);
    let at: usize = match found {
        Ok(_) => {
            return false;
        },
        Err(at) => at,
    };
    let joins_below: bool = at > 0 && runs[at - 1].last as u32 + 1 == low as u32;
    let joins_above: bool = at < runs.len() && low as u32 + 1 == runs[at].start as u32;
    if joins_below && joins_above {
        let below = Run { start: runs[at - 1].start, last: runs[at].last };
        runs.set(at - 1, below);
        runs.remove(at);
        proof {
            lemma_merged(before, runs@, at as int, low as int);
        }
    } else if joins_below {
        let below = Run { start: runs[at - 1].start, last: low };
        runs.set(at - 1, below);
        proof {
            lemma_replaced(before, runs@, at - 1, low as int);
        }
    } else if joins_above {
        let above = Run { start: low, last: runs[at].last };
        runs.set(at, above);
        proof {
            lemma_replaced(before, runs@, at as int, low as int);
        }
    } else {
        runs.insert(at, Run { start: low, last: low });
        proof {
            lemma_inserted(before, runs@, at as int, low as int);
        }
    }
    true
}

/// Two runs and the ordinal between them made into one.
proof fn lemma_merged(before: Seq<Run>, after: Seq<Run>, at: int, low: int)
    requires
        runs_ok(before),
        0 < at < before.len(),
        before[at - 1].last + 1 == low,
        low + 1 == before[at].start,
        after == before.update(
            at - 1,
            Run { start: before[at - 1].start, last: before[at].last },
        ).remove(at),
    ensures
        runs_ok(after),
        forall|x: int| #[trigger] in_runs(after, x) == (in_runs(before, x) || x == low),
{
    assert forall|i: int| 0 <= i < after.len() implies (#[trigger] after[i]) == (if i < at - 1 {
        before[i]
    } else if i == at - 1 {
        Run { start: before[at - 1].start, last: before[at].last }
    } else {
        before[i + 1]
    }) by {}
    assert forall|i: int, j: int| 0 <= i < j < after.len() implies (#[trigger] after[i]).last + 1 < (
    #[trigger] after[j]).start by {
        let p = if i < at - 1 {
            i
        } else {
            i + 1
        };
        let q = if j < at {
            j
        } else {
            j + 1
        };
        assert(before[p].last + 1 < before[q].start);
    }
    assert forall|x: int| #[trigger] in_runs(after, x) == (in_runs(before, x) || x == low) by {
        if in_runs(before, x) {
            let k = choose|k: int|
                0 <= k < before.len() && (#[trigger] before[k]).start <= x <= before[k].last;
            let j = if k < at {
                k
            } else {
                k - 1
            };
            assert(after[j].start <= x <= after[j].last);
        }
        if x == low {
            assert(after[at - 1].start <= x <= after[at - 1].last);
        }
        if in_runs(after, x) && x != low {
            let k = choose|k: int|
                0 <= k < after.len() && (#[trigger] after[k]).start <= x <= after[k].last;
            if k == at - 1 {
                if x < low {
                    assert(before[at - 1].start <= x <= before[at - 1].last);
                } else {
                    assert(before[at].start <= x <= before[at].last);
                }
            } else if k < at - 1 {
                assert(before[k].start <= x <= before[k].last);
            } else {
                assert(before[k + 1].start <= x <= before[k + 1].last);
            }
        }
    }
}

/// A run of one ordinal put between two others.
proof fn lemma_inserted(before: Seq<Run>, after: Seq<Run>, at: int, low: int)
    requires
        runs_ok(before),
        0 <= at <= before.len(),
        0 <= low < 65536,
        at > 0 ==> before[at - 1].last + 1 < low,
        at < before.len() ==> low + 1 < before[at].start,
        after == before.insert(at, Run { start: low as u16, last: low as u16 }),
    ensures
        runs_ok(after),
        forall|x: int| #[trigger] in_runs(after, x) == (in_runs(before, x) || x == low),
{
    assert forall|i: int| 0 <= i < after.len() implies (#[trigger] after[i]) == (if i < at {
        before[i]
    } else if i == at {
        Run { start: low as u16, last: low as u16 }
    } else {
        before[i - 1]
    }) by {}
    assert forall|i: int, j: int| 0 <= i < j < after.len() implies (#[trigger] after[i]).last + 1 < (
    #[trigger] after[j]).start by {
        if j == at && i < at - 1 {
            assert(before[i].last + 1 < before[at - 1].start);
        } else if i == at && j > at + 1 {
            assert(before[at].last + 1 < before[j - 1].start);
        } else if i != at && j != at {
            let p = if i < at {
                i
            } else {
                i - 1
            };
            let q = if j < at {
                j
            } else {
                j - 1
            };
            assert(before[p].last + 1 < before[q].start);
        }
    }
    assert forall|x: int| #[trigger] in_runs(after, x) == (in_runs(before, x) || x == low) by {
        if in_runs(before, x) {
            let k = choose|k: int|
                0 <= k < before.len() && (#[trigger] before[k]).start <= x <= before[k].last;
            let j = if k < at {
                k
            } else {
                k + 1
            };
            assert(after[j].start <= x <= after[j].last);
        }
        if x == low {
            assert(after[at].start <= x <= after[at].last);
        }
        if in_runs(after, x) && x != low {
            let k = choose|k: int|
                0 <= k < after.len() && (#[trigger] after[k]).start <= x <= after[k].last;
            let j = if k < at {
                k
            } else {
                k - 1
            };
            assert(before[j].start <= x <= before[j].last);
        }
    }
}

/// A run grown by the one ordinal next to it.
proof fn lemma_replaced(before: Seq<Run>, after: Seq<Run>, at: int, low: int)
    requires
        0 <= at < before.len(),
        after == before.update(at, after[at]),
        after[at].start <= before[at].start,
        before[at].last <= after[at].last,
        forall|x: int|
            #[trigger] spans(after[at], x) == (spans(before[at], x) || x == low),
    ensures
        forall|x: int| #[trigger] in_runs(after, x) == (in_runs(before, x) || x == low),
{
    assert forall|x: int| #[trigger] in_runs(after, x) == (in_runs(before, x) || x == low) by {
        assert(spans(after[at], x) == (spans(before[at], x) || x == low));
        if in_runs(before, x) {
            let k = choose|k: int|
                0 <= k < before.len() && (#[trigger] before[k]).start <= x <= before[k].last;
            assert(after[k].start <= x <= after[k].last);
        }
        if x == low {
            assert(after[at].start <= x <= after[at].last);
        }
        if in_runs(after, x) && x != low {
            let k = choose|k: int|
                0 <= k < after.len() && (#[trigger] after[k]).start <= x <= after[k].last;
            assert(before[k].start <= x <= before[k].last);
        }
    }
}

/// Removes `low` from a run list, splitting the run it lands in if it is inside.
pub fn runs_remove(runs: &mut Vec<Run>, low: u16) -> (removed: bool)
    requires
        runs_ok(old(runs)@),
    ensures
        runs_ok(final(runs)@),
        removed == in_runs(old(runs)@, low as int),
        forall|x: int|
            #[trigger] in_runs(final(runs)@, x) == (in_runs(old(runs)@, x) && x != low),
{
    let ghost before = runs@;
    let found = covered(runs.as_slice(), low);
    let at: usize = match found {
        Err(_) => {
            return false;
        },
        Ok(at) => at,
    };
    let run = runs[at];
    if run.start == low && run.last == low {
        runs.remove(at);
        proof {
            let after = runs@;
            assert forall|i: int| 0 <= i < after.len() implies (#[trigger] after[i]) == (if i < at {
                before[i]
            } else {
                before[i + 1]
            }) by {}
            assert forall|x: int| #[trigger] in_runs(after, x) == (in_runs(before, x) && x
                != low) by {
                if in_runs(before, x) && x != low {
                    let k = choose|k: int|
                        0 <= k < before.len() && (#[trigger] before[k]).start <= x
                            <= before[k].last;
                    let j = if k < at {
                        k
                    } else {
                        k - 1
                    };
                    assert(after[j].start <= x <= after[j].last);
                }
                if in_runs(after, x) {
                    let k = choose|k: int|
                        0 <= k < after.len() && (#[trigger] after[k]).start <= x <= after[k].last;
                    let j = if k < at {
                        k
                    } else {
                        k + 1
                    };
                    assert(before[j].start <= x <= before[j].last);
                    lemma_elsewhere(before, at as int, j, low as int);
                }
            }
        }
    } else if run.start == low {
        runs.set(at, Run { start: low + 1, last: run.last });
        proof {
            lemma_shortened(before, runs@, at as int, low as int);
        }
    } else if run.last == low {
        runs.set(at, Run { start: run.start, last: low - 1 });
        proof {
            lemma_shortened(before, runs@, at as int, low as int);
        }
    } else {
        runs.set(at, Run { start: run.start, last: low - 1 });
        let above = Run { start: low + 1, last: run.last };
        assert(at + 1 <= runs.len());
        runs.insert(at + 1, above);
        proof {
            let after = runs@;
            assert forall|i: int| 0 <= i < after.len() implies (#[trigger] after[i]) == (if i < at {
                before[i]
            } else if i == at {
                Run { start: run.start, last: (low - 1) as u16 }
            } else if i == at + 1 {
                above
            } else {
                before[i - 1]
            }) by {}
            assert forall|x: int| #[trigger] in_runs(after, x) == (in_runs(before, x) && x
                != low) by {
                if in_runs(before, x) && x != low {
                    let k = choose|k: int|
                        0 <= k < before.len() && (#[trigger] before[k]).start <= x
                            <= before[k].last;
                    let j = if k < at || (k == at && x < low) {
                        k
                    } else {
                        k + 1
                    };
                    assert(after[j].start <= x <= after[j].last);
                }
                if in_runs(after, x) {
                    let k = choose|k: int|
                        0 <= k < after.len() && (#[trigger] after[k]).start <= x <= after[k].last;
                    let j = if k <= at {
                        k
                    } else {
                        k - 1
                    };
                    assert(before[j].start <= x <= before[j].last);
                    if j != at {
                        lemma_elsewhere(before, at as int, j, low as int);
                    }
                }
            }
        }
    }
    true
}

/// No second run covers what one run covers.
proof fn lemma_elsewhere(runs: Seq<Run>, at: int, other: int, low: int)
    requires
        runs_ok(runs),
        0 <= at < runs.len(),
        0 <= other < runs.len(),
        at != other,
        runs[at].start <= low <= runs[at].last,
    ensures
        !(runs[other].start <= low <= runs[other].last),
{
    if at < other {
        assert(runs[at].last + 1 < runs[other].start);
    } else {
        assert(runs[other].last + 1 < runs[at].start);
    }
}

proof fn lemma_shortened(before: Seq<Run>, after: Seq<Run>, at: int, low: int)
    requires
        runs_ok(before),
        0 <= at < before.len(),
        before[at].start <= low <= before[at].last,
        after == before.update(at, after[at]),
        forall|x: int|
            #[trigger] spans(after[at], x) == (spans(before[at], x) && x != low),
    ensures
        forall|x: int| #[trigger] in_runs(after, x) == (in_runs(before, x) && x != low),
{
    assert forall|x: int| #[trigger] in_runs(after, x) == (in_runs(before, x) && x != low) by {
        assert(spans(after[at], x) == (spans(before[at], x) && x != low));
        if in_runs(before, x) && x != low {
            let k = choose|k: int|
                0 <= k < before.len() && (#[trigger] before[k]).start <= x <= before[k].last;
            assert(after[k].start <= x <= after[k].last);
        }
        if in_runs(after, x) {
            let k = choose|k: int|
                0 <= k < after.len() && (#[trigger] after[k]).start <= x <= after[k].last;
            assert(before[k].start <= x <= before[k].last);
            if k != at {
                lemma_elsewhere(before, at, k, low);
            }
        }
    }
}

/// Appending a run adds what it covers.
proof fn lemma_pushed(out: Seq<Run>, run: Run)
    ensures
        forall|x: int|
            #[trigger] in_runs(out.push(run), x) == (in_runs(out, x) || run.start <= x
                <= run.last),
{
    let after = out.push(run);
    assert forall|x: int|
        #[trigger] in_runs(after, x) == (in_runs(out, x) || run.start <= x <= run.last) by {
        if in_runs(out, x) {
            let k = choose|k: int|
                0 <= k < out.len() && (#[trigger] out[k]).start <= x <= out[k].last;
            assert(after[k].start <= x <= after[k].last);
        }
        if run.start <= x <= run.last {
            let k = out.len() as int;
            assert(after[k].start <= x <= after[k].last);
        }
        if in_runs(after, x) {
            let k = choose|k: int|
                0 <= k < after.len() && (#[trigger] after[k]).start <= x <= after[k].last;
            if k < out.len() {
                assert(out[k].start <= x <= out[k].last);
            }
        }
    }
}

/// What the runs from `from` on cover.
pub open spec fn in_tail(runs: Seq<Run>, from: int, low: int) -> bool {
    exists|i: int| from <= i < runs.len() && (#[trigger] runs[i]).start <= low <= runs[i].last
}

proof fn lemma_tail_step(runs: Seq<Run>, from: int, low: int)
    requires
        runs_ok(runs),
        0 <= from < runs.len(),
    ensures
        in_tail(runs, from, low) == (in_tail(runs, from + 1, low) || runs[from].start <= low
            <= runs[from].last),
        in_tail(runs, from + 1, low) ==> low > runs[from].last + 1,
        in_tail(runs, from, low) ==> low >= runs[from].start,
{
    if in_tail(runs, from, low) {
        let k = choose|k: int|
            from <= k < runs.len() && (#[trigger] runs[k]).start <= low <= runs[k].last;
        if k > from {
            assert(runs[from].last + 1 < runs[k].start);
            assert(in_tail(runs, from + 1, low));
        }
    }
    if in_tail(runs, from + 1, low) {
        let k = choose|k: int|
            from + 1 <= k < runs.len() && (#[trigger] runs[k]).start <= low <= runs[k].last;
        assert(runs[from].last + 1 < runs[k].start);
        assert(runs[k].start <= low <= runs[k].last);
    }
}

proof fn lemma_tail_all(runs: Seq<Run>)
    ensures
        forall|x: int| #[trigger] in_runs(runs, x) == in_tail(runs, 0, x),
{
    assert forall|x: int| #[trigger] in_runs(runs, x) == in_tail(runs, 0, x) by {
        if in_runs(runs, x) {
            let k = choose|k: int|
                0 <= k < runs.len() && (#[trigger] runs[k]).start <= x <= runs[k].last;
            assert(runs[k].start <= x <= runs[k].last);
        }
    }
}

/// The stretches both run lists cover.
pub fn runs_intersect(mine: &[Run], theirs: &[Run]) -> (out: Vec<Run>)
    requires
        runs_ok(mine@),
        runs_ok(theirs@),
    ensures
        runs_ok(out@),
        forall|x: int|
            #[trigger] in_runs(out@, x) == (in_runs(mine@, x) && in_runs(theirs@, x)),
{
    let mut out: Vec<Run> = Vec::new();
    let mut ours: usize = 0;
    let mut them: usize = 0;
    proof {
        lemma_tail_all(mine@);
        lemma_tail_all(theirs@);
    }
    while ours < mine.len() && them < theirs.len()
        invariant
            ours <= mine@.len(),
            them <= theirs@.len(),
            runs_ok(mine@),
            runs_ok(theirs@),
            runs_ok(out@),
            forall|x: int|
                (in_runs(mine@, x) && in_runs(theirs@, x)) == (#[trigger] in_runs(out@, x) || (
                in_tail(mine@, ours as int, x) && in_tail(theirs@, them as int, x))),
            out@.len() > 0 ==> (ours < mine@.len() ==> out@[out@.len() - 1].last
                <= mine@[ours as int].last),
            out@.len() > 0 ==> (them < theirs@.len() ==> out@[out@.len() - 1].last
                <= theirs@[them as int].last),
            out@.len() > 0 ==> (ours < mine@.len() && them < theirs@.len() ==> (out@[out@.len()
                - 1].last + 1 < mine@[ours as int].start || out@[out@.len() - 1].last + 1
                < theirs@[them as int].start)),
        decreases mine.len() - ours + (theirs.len() - them),
    {
        let a = mine[ours];
        let b = theirs[them];
        let ghost had = out@;
        let start: u16 = if a.start >= b.start {
            a.start
        } else {
            b.start
        };
        let last: u16 = if a.last <= b.last {
            a.last
        } else {
            b.last
        };
        if start <= last {
            out.push(Run { start, last });
            proof {
                lemma_pushed(had, Run { start, last });
                assert forall|i: int| 0 <= i < had.len() implies (#[trigger] had[i]).last + 1
                    < start by {
                    if i < had.len() - 1 {
                        assert(had[i].last + 1 < had[had.len() - 1].start);
                    }
                }
            }
        }
        proof {
            assert forall|x: int| true implies (in_runs(mine@, x) && in_runs(theirs@, x)) == (
            #[trigger] in_runs(out@, x) || (if a.last < b.last {
                in_tail(mine@, ours + 1, x) && in_tail(theirs@, them as int, x)
            } else {
                in_tail(mine@, ours as int, x) && in_tail(theirs@, them + 1, x)
            })) by {
                assert((in_runs(mine@, x) && in_runs(theirs@, x)) == (in_runs(had, x) || (in_tail(
                    mine@,
                    ours as int,
                    x,
                ) && in_tail(theirs@, them as int, x))));
                lemma_tail_step(mine@, ours as int, x);
                lemma_tail_step(theirs@, them as int, x);
            }
            if a.last < b.last {
                if ours + 1 < mine@.len() {
                    assert(mine@[ours as int].last + 1 < mine@[ours + 1].start);
                }
            } else {
                if them + 1 < theirs@.len() {
                    assert(theirs@[them as int].last + 1 < theirs@[them + 1].start);
                }
            }
        }
        if a.last < b.last {
            ours = ours + 1;
        } else {
            them = them + 1;
        }
    }
    proof {
        assert forall|x: int| #[trigger] in_runs(out@, x) == (in_runs(mine@, x) && in_runs(
            theirs@,
            x,
        )) by {}
    }
    out
}

/// The stretches either run list covers, joined where they touch.
pub fn runs_union(mine: &[Run], theirs: &[Run]) -> (out: Vec<Run>)
    requires
        runs_ok(mine@),
        runs_ok(theirs@),
    ensures
        runs_ok(out@),
        forall|x: int|
            #[trigger] in_runs(out@, x) == (in_runs(mine@, x) || in_runs(theirs@, x)),
{
    let mut out: Vec<Run> = Vec::new();
    let mut ours: usize = 0;
    let mut them: usize = 0;
    proof {
        lemma_tail_all(mine@);
        lemma_tail_all(theirs@);
    }
    while ours < mine.len() || them < theirs.len()
        invariant
            ours <= mine@.len(),
            them <= theirs@.len(),
            runs_ok(mine@),
            runs_ok(theirs@),
            runs_ok(out@),
            forall|x: int|
                (in_runs(mine@, x) || in_runs(theirs@, x)) == (#[trigger] in_runs(out@, x)
                    || in_tail(mine@, ours as int, x) || in_tail(theirs@, them as int, x)),
            out@.len() > 0 ==> (ours < mine@.len() ==> out@[out@.len() - 1].start
                <= mine@[ours as int].start),
            out@.len() > 0 ==> (them < theirs@.len() ==> out@[out@.len() - 1].start
                <= theirs@[them as int].start),
        decreases mine.len() - ours + (theirs.len() - them),
    {
        let ghost o = ours as int;
        let ghost t = them as int;
        let ghost had = out@;
        let take_ours: bool = if ours < mine.len() && them < theirs.len() {
            mine[ours].start <= theirs[them].start
        } else {
            ours < mine.len()
        };
        let next = if take_ours {
            ours = ours + 1;
            mine[ours - 1]
        } else {
            them = them + 1;
            theirs[them - 1]
        };
        let n: usize = out.len();
        if n > 0 && out[n - 1].last as u32 + 1 >= next.start as u32 {
            let run = out[n - 1];
            let last: u16 = if run.last >= next.last {
                run.last
            } else {
                next.last
            };
            let grown = Run { start: run.start, last };
            out.set(n - 1, grown);
            proof {
                assert(out@ =~= had.drop_last().push(grown));
                assert(had =~= had.drop_last().push(run));
                lemma_pushed(had.drop_last(), grown);
                lemma_pushed(had.drop_last(), run);
            }
        } else {
            out.push(next);
            proof {
                lemma_pushed(had, next);
                assert forall|i: int| 0 <= i < had.len() implies (#[trigger] had[i]).last + 1
                    < next.start by {
                    if i < had.len() - 1 {
                        assert(had[i].last + 1 < had[had.len() - 1].start);
                    }
                }
            }
        }
        proof {
            assert forall|x: int| true implies (in_runs(mine@, x) || in_runs(theirs@, x)) == (
            #[trigger] in_runs(out@, x) || in_tail(mine@, ours as int, x) || in_tail(
                theirs@,
                them as int,
                x,
            )) by {
                assert((in_runs(mine@, x) || in_runs(theirs@, x)) == (in_runs(had, x) || in_tail(
                    mine@,
                    o,
                    x,
                ) || in_tail(theirs@, t, x)));
                if take_ours {
                    lemma_tail_step(mine@, o, x);
                } else {
                    lemma_tail_step(theirs@, t, x);
                }
            }
            if take_ours && ours < mine@.len() {
                assert(mine@[o].last + 1 < mine@[ours as int].start);
            }
            if !take_ours && them < theirs@.len() {
                assert(theirs@[t].last + 1 < theirs@[them as int].start);
            }
        }
    }
    out
}

/// The stretches `mine` covers and `theirs` does not.
pub fn runs_difference(mine: &[Run], theirs: &[Run]) -> (out: Vec<Run>)
    requires
        runs_ok(mine@),
        runs_ok(theirs@),
    ensures
        runs_ok(out@),
        forall|x: int|
            #[trigger] in_runs(out@, x) == (in_runs(mine@, x) && !in_runs(theirs@, x)),
{
    let mut out: Vec<Run> = Vec::new();
    let mut them: usize = 0;
    let mut i: usize = 0;
    proof {
        lemma_tail_all(mine@);
        lemma_tail_all(theirs@);
    }
    while i < mine.len()
        invariant
            i <= mine@.len(),
            them <= theirs@.len(),
            runs_ok(mine@),
            runs_ok(theirs@),
            runs_ok(out@),
            forall|x: int|
                (in_runs(mine@, x) && !in_runs(theirs@, x)) == (#[trigger] in_runs(out@, x) || (
                in_tail(mine@, i as int, x) && !in_runs(theirs@, x))),
            i < mine@.len() ==> forall|k: int|
                0 <= k < them ==> (#[trigger] theirs@[k]).last < mine@[i as int].start,
            i < mine@.len() && out@.len() > 0 ==> out@[out@.len() - 1].last + 1
                < mine@[i as int].start,
        decreases mine.len() - i,
    {
        let run = mine[i];
        let ghost before = out@;
        let mut start: u32 = run.start as u32;
        let last: u32 = run.last as u32;
        while them < theirs.len() && (theirs[them].last as u32) < start
            invariant
                them <= theirs@.len(),
                start == run.start,
                forall|k: int| 0 <= k < them ==> (#[trigger] theirs@[k]).last < run.start,
            decreases theirs.len() - them,
        {
            them = them + 1;
        }
        let mut cut: usize = them;
        let mut blocked: bool = false;
        while start <= last && !blocked
            invariant
                them <= cut <= theirs@.len(),
                runs_ok(theirs@),
                runs_ok(out@),
                run.start <= start <= 65536,
                last == run.last,
                run.start <= run.last,
                out@.len() > 0 ==> out@[out@.len() - 1].last + 1 < start || (out@[out@.len()
                    - 1].last + 1 == start && cut < theirs@.len() && theirs@[cut as int].start
                    == start),
                out@.len() > 0 ==> out@[out@.len() - 1].last <= last,
                forall|k: int| 0 <= k < cut ==> (#[trigger] theirs@[k]).last < start,
                forall|x: int| #[trigger] in_runs(out@, x) == (in_runs(before, x) || (run.start <= x
                    < start && x <= last && !in_runs(theirs@, x))),
                blocked ==> (cut == theirs@.len() || theirs@[cut as int].start > last),
            decreases (if blocked {
                0int
            } else {
                1int
            }), theirs.len() - cut,
        {
            if cut == theirs.len() {
                blocked = true;
            } else {
                let from: u32 = theirs[cut].start as u32;
                let to: u32 = theirs[cut].last as u32;
                if from > last {
                    blocked = true;
                } else {
                    let ghost had = out@;
                    let ghost reached = start;
                    if from > start {
                        push(&mut out, start, from - 1);
                        proof {
                            lemma_pushed(had, Run { start: start as u16, last: (from - 1) as u16 });
                            lemma_gap(had, Run { start: start as u16, last: (from - 1) as u16 });
                        }
                    }
                    if to + 1 > start {
                        start = to + 1;
                    }
                    proof {
                        assert forall|x: int| #[trigger] in_runs(out@, x) == (in_runs(before, x) || (
                        run.start <= x < start && x <= last && !in_runs(theirs@, x))) by {
                            assert(in_runs(had, x) == (in_runs(before, x) || (run.start <= x
                                < reached && x <= last && !in_runs(theirs@, x))));
                            if from <= x <= to {
                                assert(theirs@[cut as int].start <= x <= theirs@[cut as int].last);
                            }
                            if reached <= x < from {
                                lemma_between(theirs@, cut as int, x);
                            }
                        }
                        assert forall|k: int| 0 <= k < cut + 1 implies (#[trigger] theirs@[k]).last
                            < start by {}
                        if cut + 1 < theirs@.len() {
                            assert(theirs@[cut as int].last + 1 < theirs@[cut + 1].start);
                        }
                    }
                    cut = cut + 1;
                }
            }
        }
        let ghost had = out@;
        let ghost reached = start;
        if start <= last {
            push(&mut out, start, last);
            proof {
                lemma_pushed(had, Run { start: start as u16, last: last as u16 });
                lemma_gap(had, Run { start: start as u16, last: last as u16 });
            }
        }
        proof {
            assert forall|x: int| true implies (in_runs(mine@, x) && !in_runs(theirs@, x)) == (
            #[trigger] in_runs(out@, x) || (in_tail(mine@, i + 1, x) && !in_runs(theirs@, x))) by {
                assert((in_runs(mine@, x) && !in_runs(theirs@, x)) == (in_runs(before, x) || (
                in_tail(mine@, i as int, x) && !in_runs(theirs@, x))));
                assert(in_runs(had, x) == (in_runs(before, x) || (run.start <= x < reached && x
                    <= last && !in_runs(theirs@, x))));
                lemma_tail_step(mine@, i as int, x);
                if reached <= x <= last {
                    lemma_between(theirs@, cut as int, x);
                }
            }
            if i + 1 < mine@.len() {
                assert(mine@[i as int].last + 1 < mine@[i + 1].start);
            }
        }
        i = i + 1;
    }
    out
}

/// A run appended past a gap keeps the list in order.
proof fn lemma_gap(before: Seq<Run>, run: Run)
    requires
        runs_ok(before),
        run.start <= run.last,
        before.len() > 0 ==> before[before.len() - 1].last + 1 < run.start,
    ensures
        runs_ok(before.push(run)),
{
    let after = before.push(run);
    assert forall|i: int, j: int| 0 <= i < j < after.len() implies (#[trigger] after[i]).last + 1 < (
    #[trigger] after[j]).start by {
        if j == before.len() && i < before.len() - 1 {
            assert(before[i].last + 1 < before[before.len() - 1].start);
        }
    }
}

/// What lies past the runs before `cut` and before the run at `cut` is covered
/// by none.
proof fn lemma_between(runs: Seq<Run>, cut: int, x: int)
    requires
        runs_ok(runs),
        0 <= cut <= runs.len(),
        forall|k: int| 0 <= k < cut ==> (#[trigger] runs[k]).last < x,
        cut < runs.len() ==> x < runs[cut].start,
    ensures
        !in_runs(runs, x),
{
    assert forall|k: int| 0 <= k < runs.len() implies !((#[trigger] runs[k]).start <= x
        <= runs[k].last) by {
        if k > cut {
            assert(runs[cut].last + 1 < runs[k].start);
        }
    }
}

/// Appends a run, given the two ends as the wider type the arithmetic uses.
fn push(out: &mut Vec<Run>, start: u32, last: u32)
    requires
        start <= last <= 65535,
    ensures
        final(out)@ == old(out)@.push(Run { start: start as u16, last: last as u16 }),
{
    out.push(Run { start: start as u16, last: last as u16 });
}

} // verus!
