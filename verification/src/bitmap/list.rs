//! A chunk held as a sorted list of ordinals.
use super::words::starts;
use crate::count::{
    ascending, count, lemma_count_none, lemma_count_split, lemma_listing_unique, listing,
};
use vstd::prelude::*;

verus! {

/// Whether the list holds `low`.
pub open spec fn in_list(list: Seq<u16>, low: int) -> bool {
    0 <= low < 65536 && list.contains(low as u16)
}

/// The list as a predicate on ordinals.
pub open spec fn list_set(list: Seq<u16>) -> spec_fn(int) -> bool {
    |low: int| in_list(list, low)
}

/// An ascending list is as long as what it holds, and lists it.
pub proof fn lemma_list_count(list: Seq<u16>)
    requires
        ascending(list),
    ensures
        list.len() == count(list_set(list), 0, 65536),
        list.len() <= 65536,
        list == listing(list_set(list), 65536),
{
    let f = list_set(list);
    assert forall|i: int| 0 <= i < list.len() implies #[trigger] list[i] < 65536 && f(
        list[i] as int,
    ) by {}
    lemma_listing_unique(list, f, 65536);
    crate::count::lemma_count_bound(f, 0, 65536);
}

/// Where `low` is in the list, or where it would go.
pub fn search(list: &[u16], low: u16) -> (found: core::result::Result<usize, usize>)
    requires
        ascending(list@),
    ensures
        match found {
            Ok(at) => at < list@.len() && list@[at as int] == low && in_list(list@, low as int),
            Err(at) => at <= list@.len() && !in_list(list@, low as int) && (forall|i: int|
                0 <= i < at ==> #[trigger] list@[i] < low) && (forall|i: int|
                at <= i < list@.len() ==> low < #[trigger] list@[i]),
        },
{
    let mut lo: usize = 0;
    let mut hi: usize = list.len();
    while lo < hi
        invariant
            lo <= hi <= list@.len(),
            ascending(list@),
            forall|i: int| 0 <= i < lo ==> #[trigger] list@[i] < low,
            forall|i: int| hi <= i < list@.len() ==> low < #[trigger] list@[i],
        decreases hi - lo,
    {
        let mid: usize = lo + (hi - lo) / 2;
        let found: u16 = list[mid];
        if found < low {
            lo = mid + 1;
        } else if found > low {
            hi = mid;
        } else {
            return Ok(mid);
        }
    }
    Err(lo)
}

/// Adds `low` and reports whether it was not already there.
pub fn list_insert(list: &mut Vec<u16>, low: u16) -> (added: bool)
    requires
        ascending(old(list)@),
    ensures
        ascending(final(list)@),
        added == !in_list(old(list)@, low as int),
        forall|x: int|
            #[trigger] in_list(final(list)@, x) == (in_list(old(list)@, x) || x == low),
        final(list)@.len() == old(list)@.len() + if added {
            1nat
        } else {
            0nat
        },
{
    let ghost before = list@;
    match search(list.as_slice(), low) {
        Ok(_) => false,
        Err(at) => {
            list.insert(at, low);
            proof {
                let after = list@;
                assert forall|x: int| #[trigger] in_list(after, x) == (in_list(before, x) || x
                    == low) by {
                    if in_list(before, x) {
                        let k = before.index_of(x as u16);
                        let j = if k < at {
                            k
                        } else {
                            k + 1
                        };
                        assert(after[j] == x as u16);
                    }
                    if x == low {
                        assert(after[at as int] == x as u16);
                    }
                    if in_list(after, x) && x != low {
                        let k = after.index_of(x as u16);
                        let j = if k < at {
                            k
                        } else {
                            k - 1
                        };
                        assert(before[j] == x as u16);
                    }
                }
            }
            true
        },
    }
}

/// Removes `low` and reports whether it was there.
pub fn list_remove(list: &mut Vec<u16>, low: u16) -> (removed: bool)
    requires
        ascending(old(list)@),
    ensures
        ascending(final(list)@),
        removed == in_list(old(list)@, low as int),
        forall|x: int|
            #[trigger] in_list(final(list)@, x) == (in_list(old(list)@, x) && x != low),
{
    let ghost before = list@;
    match search(list.as_slice(), low) {
        Err(_) => false,
        Ok(at) => {
            list.remove(at);
            proof {
                let after = list@;
                assert forall|x: int| #[trigger] in_list(after, x) == (in_list(before, x) && x
                    != low) by {
                    if in_list(before, x) && x != low {
                        let k = before.index_of(x as u16);
                        let j = if k < at {
                            k
                        } else {
                            k - 1
                        };
                        assert(after[j] == x as u16);
                    }
                    if in_list(after, x) {
                        let k = after.index_of(x as u16);
                        let j = if k < at {
                            k
                        } else {
                            k + 1
                        };
                        assert(before[j] == x as u16);
                        assert(before[at as int] == low);
                    }
                }
            }
            true
        },
    }
}

proof fn lemma_list_pushed(list: Seq<u16>, low: u16)
    ensures
        forall|x: int|
            0 <= x < 65536 ==> (#[trigger] in_list(list.push(low), x) == (in_list(list, x) || x
                == low)),
{
    let after = list.push(low);
    assert forall|x: int| 0 <= x < 65536 implies #[trigger] in_list(after, x) == (in_list(list, x)
        || x == low) by {
        if in_list(list, x) {
            let k = list.index_of(x as u16);
            assert(after[k] == x as u16);
        }
        if x == low {
            assert(after[list.len() as int] == x as u16);
        }
        if in_list(after, x) {
            let k = after.index_of(x as u16);
            if k < list.len() {
                assert(list[k] == x as u16);
            }
        }
    }
}

/// Keeps only what both sorted lists hold, in one pass over each.
pub fn keep_common(mine: &mut Vec<u16>, theirs: &[u16])
    requires
        ascending(old(mine)@),
        ascending(theirs@),
    ensures
        ascending(final(mine)@),
        forall|x: int|
            0 <= x < 65536 ==> (#[trigger] in_list(final(mine)@, x) == (in_list(old(mine)@, x)
                && in_list(theirs@, x))),
{
    let ghost before = mine@;
    let mut kept: Vec<u16> = Vec::new();
    let mut at: usize = 0;
    let mut i: usize = 0;
    while i < mine.len()
        invariant
            i <= mine@.len(),
            at <= theirs@.len(),
            mine@ == before,
            ascending(before),
            ascending(theirs@),
            ascending(kept@),
            i < before.len() ==> forall|k: int|
                0 <= k < kept@.len() ==> #[trigger] kept@[k] < before[i as int],
            i < before.len() ==> forall|k: int|
                0 <= k < at ==> #[trigger] theirs@[k] < before[i as int],
            forall|x: int|
                0 <= x < 65536 ==> (#[trigger] in_list(kept@, x) == (in_list(
                    before.take(i as int),
                    x,
                ) && in_list(theirs@, x))),
        decreases mine.len() - i,
    {
        let low: u16 = mine[i];
        let ghost had = kept@;
        while at < theirs.len() && theirs[at] < low
            invariant
                at <= theirs@.len(),
                forall|k: int| 0 <= k < at ==> #[trigger] theirs@[k] < low,
            decreases theirs.len() - at,
        {
            at = at + 1;
        }
        let common: bool = at < theirs.len() && theirs[at] == low;
        if common {
            kept.push(low);
        }
        proof {
            lemma_list_pushed(had, low);
            lemma_list_pushed(before.take(i as int), low);
            assert(before.take(i + 1) =~= before.take(i as int).push(low));
            assert(in_list(theirs@, low as int) == common) by {
                if in_list(theirs@, low as int) {
                    let k = theirs@.index_of(low);
                    assert(theirs@[k] == low);
                    if k > at {
                        assert(theirs@[at as int] < theirs@[k]);
                    }
                }
            }
            assert forall|x: int| 0 <= x < 65536 implies #[trigger] in_list(kept@, x) == (in_list(
                before.take(i + 1),
                x,
            ) && in_list(theirs@, x)) by {
                assert(in_list(had, x) == (in_list(before.take(i as int), x) && in_list(
                    theirs@,
                    x,
                )));
                assert(in_list(had.push(low), x) == (in_list(had, x) || x == low));
                assert(in_list(before.take(i as int).push(low), x) == (in_list(
                    before.take(i as int),
                    x,
                ) || x == low));
            }
        }
        i = i + 1;
    }
    proof {
        assert(before.take(i as int) =~= before);
    }
    *mine = kept;
}

/// Merges `theirs` into `mine`, both sorted, without duplicates.
pub fn add_all(mine: &mut Vec<u16>, theirs: &[u16])
    requires
        ascending(old(mine)@),
        ascending(theirs@),
    ensures
        ascending(final(mine)@),
        forall|x: int|
            0 <= x < 65536 ==> (#[trigger] in_list(final(mine)@, x) == (in_list(old(mine)@, x)
                || in_list(theirs@, x))),
{
    let ghost before = mine@;
    let mut merged: Vec<u16> = Vec::new();
    let mut ours: usize = 0;
    let mut them: usize = 0;
    while ours < mine.len() || them < theirs.len()
        invariant
            ours <= mine@.len(),
            them <= theirs@.len(),
            mine@ == before,
            ascending(before),
            ascending(theirs@),
            ascending(merged@),
            ours < before.len() ==> forall|k: int|
                0 <= k < merged@.len() ==> #[trigger] merged@[k] < before[ours as int],
            them < theirs@.len() ==> forall|k: int|
                0 <= k < merged@.len() ==> #[trigger] merged@[k] < theirs@[them as int],
            forall|x: int|
                0 <= x < 65536 ==> (#[trigger] in_list(merged@, x) == (in_list(
                    before.take(ours as int),
                    x,
                ) || in_list(theirs@.take(them as int), x))),
        decreases mine.len() - ours + (theirs.len() - them),
    {
        let ghost had = merged@;
        let ghost o = ours as int;
        let ghost t = them as int;
        let next: u16 = if them == theirs.len() || (ours < mine.len() && mine[ours]
            <= theirs[them]) {
            mine[ours]
        } else {
            theirs[them]
        };
        if ours < mine.len() && mine[ours] == next {
            ours = ours + 1;
            proof {
                assert(before.take(o + 1) =~= before.take(o).push(next));
            }
        }
        if them < theirs.len() && theirs[them] == next {
            them = them + 1;
            proof {
                assert(theirs@.take(t + 1) =~= theirs@.take(t).push(next));
            }
        }
        merged.push(next);
        proof {
            lemma_list_pushed(had, next);
            lemma_list_pushed(before.take(o), next);
            lemma_list_pushed(theirs@.take(t), next);
            assert forall|x: int| 0 <= x < 65536 implies #[trigger] in_list(merged@, x) == (
            in_list(before.take(ours as int), x) || in_list(theirs@.take(them as int), x)) by {
                assert(in_list(had, x) == (in_list(before.take(o), x) || in_list(
                    theirs@.take(t),
                    x,
                )));
                assert(in_list(before.take(o).push(next), x) == (in_list(before.take(o), x) || x
                    == next));
                assert(in_list(theirs@.take(t).push(next), x) == (in_list(theirs@.take(t), x) || x
                    == next));
            }
        }
    }
    proof {
        assert(before.take(ours as int) =~= before);
        assert(theirs@.take(them as int) =~= theirs@);
    }
    *mine = merged;
}

/// How many stretches of consecutive ordinals the list holds, given up on once
/// the count passes `cap`.
pub fn list_runs_within(list: &[u16], cap: usize) -> (found: usize)
    requires
        ascending(list@),
    ensures
        found <= count(starts(list_set(list@)), 0, 65536),
        found <= cap ==> found == count(starts(list_set(list@)), 0, 65536),
{
    let ghost f = starts(list_set(list@));
    let mut total: usize = 0;
    let mut i: usize = 0;
    while i < list.len()
        invariant
            i <= list@.len(),
            ascending(list@),
            f == starts(list_set(list@)),
            total <= i,
            total == count(
                f,
                0,
                if i == 0 {
                    0
                } else {
                    list@[i - 1] + 1
                },
            ),
        decreases list.len() - i,
    {
        let low: u16 = list[i];
        let joins: bool = i > 0 && list[i - 1] as u32 + 1 == low as u32;
        proof {
            let from = if i == 0 {
                0
            } else {
                list@[i - 1] + 1
            };
            if i > 0 {
                assert(list@[i - 1] < list@[i as int]);
            }
            lemma_count_split(f, 0, from, low + 1);
            lemma_count_split(f, from, low as int, low + 1);
            lemma_count_split(f, 0, low + 1, 65536);
            assert forall|x: int| from <= x < low implies !#[trigger] f(x) by {
                if in_list(list@, x) {
                    let k = list@.index_of(x as u16);
                    if k < i - 1 {
                        assert(list@[k] < list@[i - 1]);
                    } else if k > i as int {
                        assert(list@[i as int] < list@[k]);
                    }
                }
            }
            lemma_count_none(f, from, low as int);
            assert(in_list(list@, low as int));
            if low > 0 {
                assert(in_list(list@, low - 1) == joins) by {
                    if joins {
                        assert(list@[i - 1] == (low - 1) as u16);
                    }
                    if in_list(list@, low - 1) {
                        let k = list@.index_of((low - 1) as u16);
                        if k >= i as int {
                            assert(list@[i as int] <= list@[k]);
                        } else if k < i - 1 {
                            assert(list@[k] < list@[i - 1]);
                        }
                    }
                }
            }
            assert(f(low as int) == !joins);
            assert(count(f, low as int, low as int) == 0);
        }
        if !joins {
            total = total + 1;
            if total > cap {
                return total;
            }
        }
        i = i + 1;
    }
    proof {
        let from = if i == 0 {
            0
        } else {
            list@[i - 1] + 1
        };
        assert forall|x: int| from <= x < 65536 implies !#[trigger] f(x) by {
            if in_list(list@, x) {
                let k = list@.index_of(x as u16);
                if k < i - 1 {
                    assert(list@[k] < list@[i - 1]);
                }
            }
        }
        lemma_count_split(f, 0, from, 65536);
        lemma_count_none(f, from, 65536);
    }
    total
}

} // verus!
