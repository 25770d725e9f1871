//! Counting and listing the integers of a range that satisfy a predicate.
use vstd::prelude::*;

verus! {

/// How many integers from `lo` up to but not including `hi` satisfy `f`.
pub open spec fn count(f: spec_fn(int) -> bool, lo: int, hi: int) -> nat
    decreases hi - lo,
{
    if lo >= hi {
        0
    } else {
        count(f, lo, hi - 1) + if f(hi - 1) {
            1nat
        } else {
            0nat
        }
    }
}

/// Every element is larger than the one before it.
pub open spec fn ascending(s: Seq<u16>) -> bool {
    forall|i: int, j: int| 0 <= i < j < s.len() ==> s[i] < s[j]
}

/// The numbers below `hi` that satisfy `f`, in ascending order.
pub open spec fn listing(f: spec_fn(int) -> bool, hi: int) -> Seq<u16>
    decreases hi,
{
    if hi <= 0 {
        Seq::empty()
    } else if f(hi - 1) {
        listing(f, hi - 1).push((hi - 1) as u16)
    } else {
        listing(f, hi - 1)
    }
}

pub proof fn lemma_count_split(f: spec_fn(int) -> bool, lo: int, mid: int, hi: int)
    requires
        lo <= mid <= hi,
    ensures
        count(f, lo, hi) == count(f, lo, mid) + count(f, mid, hi),
    decreases hi - mid,
{
    if mid < hi {
        lemma_count_split(f, lo, mid, hi - 1);
    }
}

/// Predicates that agree, up to moving the range by `by`, count alike.
pub proof fn lemma_count_shift(
    f: spec_fn(int) -> bool,
    g: spec_fn(int) -> bool,
    lo: int,
    hi: int,
    by: int,
)
    requires
        forall|i: int| lo <= i < hi ==> #[trigger] f(i) == g(i + by),
    ensures
        count(f, lo, hi) == count(g, lo + by, hi + by),
    decreases hi - lo,
{
    if lo < hi {
        lemma_count_shift(f, g, lo, hi - 1, by);
        assert(f(hi - 1) == g(hi - 1 + by));
        assert(hi - 1 + by == hi + by - 1);
    }
}

pub proof fn lemma_count_same(f: spec_fn(int) -> bool, g: spec_fn(int) -> bool, lo: int, hi: int)
    requires
        forall|i: int| lo <= i < hi ==> #[trigger] f(i) == g(i),
    ensures
        count(f, lo, hi) == count(g, lo, hi),
    decreases hi - lo,
{
    if lo < hi {
        lemma_count_same(f, g, lo, hi - 1);
        assert(f(hi - 1) == g(hi - 1));
    }
}

pub proof fn lemma_count_bound(f: spec_fn(int) -> bool, lo: int, hi: int)
    requires
        lo <= hi,
    ensures
        count(f, lo, hi) <= hi - lo,
    decreases hi - lo,
{
    if lo < hi {
        lemma_count_bound(f, lo, hi - 1);
    }
}

pub proof fn lemma_count_none(f: spec_fn(int) -> bool, lo: int, hi: int)
    requires
        forall|i: int| lo <= i < hi ==> !#[trigger] f(i),
    ensures
        count(f, lo, hi) == 0,
    decreases hi - lo,
{
    if lo < hi {
        lemma_count_none(f, lo, hi - 1);
        assert(!f(hi - 1));
    }
}

pub proof fn lemma_count_all(f: spec_fn(int) -> bool, lo: int, hi: int)
    requires
        lo <= hi,
        forall|i: int| lo <= i < hi ==> #[trigger] f(i),
    ensures
        count(f, lo, hi) == hi - lo,
    decreases hi - lo,
{
    if lo < hi {
        lemma_count_all(f, lo, hi - 1);
        assert(f(hi - 1));
    }
}

/// A count is positive exactly where something satisfies the predicate.
pub proof fn lemma_count_some(f: spec_fn(int) -> bool, lo: int, hi: int, at: int)
    requires
        lo <= at < hi,
        f(at),
    ensures
        count(f, lo, hi) > 0,
{
    lemma_count_split(f, lo, at, hi);
    lemma_count_split(f, at, at + 1, hi);
    assert(count(f, at, at) == 0);
}

pub proof fn lemma_count_found(f: spec_fn(int) -> bool, lo: int, hi: int) -> (at: int)
    requires
        count(f, lo, hi) > 0,
    ensures
        lo <= at < hi,
        f(at),
    decreases hi - lo,
{
    if f(hi - 1) {
        hi - 1
    } else {
        lemma_count_found(f, lo, hi - 1)
    }
}

/// One more number satisfying the predicate is one more counted.
pub proof fn lemma_count_one_more(
    f: spec_fn(int) -> bool,
    g: spec_fn(int) -> bool,
    lo: int,
    hi: int,
    at: int,
)
    requires
        lo <= at < hi,
        !f(at),
        g(at),
        forall|i: int| lo <= i < hi && i != at ==> #[trigger] f(i) == g(i),
    ensures
        count(g, lo, hi) == count(f, lo, hi) + 1,
{
    lemma_count_split(f, lo, at, hi);
    lemma_count_split(f, at, at + 1, hi);
    lemma_count_split(g, lo, at, hi);
    lemma_count_split(g, at, at + 1, hi);
    lemma_count_same(f, g, lo, at);
    lemma_count_same(f, g, at + 1, hi);
    assert(count(f, at, at) == 0);
    assert(count(g, at, at) == 0);
}

pub proof fn lemma_listing(f: spec_fn(int) -> bool, hi: int)
    requires
        0 <= hi <= 0x1_0000,
    ensures
        ascending(listing(f, hi)),
        listing(f, hi).len() == count(f, 0, hi),
        forall|i: int|
            0 <= i < listing(f, hi).len() ==> #[trigger] listing(f, hi)[i] < hi && f(
                listing(f, hi)[i] as int,
            ),
        forall|x: int| 0 <= x < hi && #[trigger] f(x) ==> listing(f, hi).contains(x as u16),
    decreases hi,
{
    if hi > 0 {
        lemma_listing(f, hi - 1);
        let shorter = listing(f, hi - 1);
        let s = listing(f, hi);
        assert forall|x: int| 0 <= x < hi && #[trigger] f(x) implies s.contains(x as u16) by {
            if x == hi - 1 {
                assert(s[s.len() - 1] == x as u16);
            } else {
                let k = shorter.index_of(x as u16);
                assert(shorter.contains(x as u16));
                assert(s[k] == x as u16);
            }
        }
    }
}

/// An ascending list that holds exactly what satisfies the predicate is the
/// listing of it.
pub proof fn lemma_listing_unique(s: Seq<u16>, f: spec_fn(int) -> bool, hi: int)
    requires
        0 <= hi <= 0x1_0000,
        ascending(s),
        forall|i: int| 0 <= i < s.len() ==> #[trigger] s[i] < hi && f(s[i] as int),
        forall|x: int| 0 <= x < hi && #[trigger] f(x) ==> s.contains(x as u16),
    ensures
        s == listing(f, hi),
        s.len() == count(f, 0, hi),
    decreases hi,
{
    if hi == 0 {
        if s.len() > 0 {
            assert(s[0] < 0);
        }
        assert(s =~= Seq::<u16>::empty());
    } else if f(hi - 1) {
        assert(s.contains((hi - 1) as u16));
        let k = s.index_of((hi - 1) as u16);
        assert(k == s.len() - 1) by {
            if k < s.len() - 1 {
                assert(s[k] < s[s.len() - 1]);
                assert(s[s.len() - 1] < hi);
            }
        }
        let shorter = s.drop_last();
        assert forall|i: int| 0 <= i < shorter.len() implies #[trigger] shorter[i] < hi - 1 && f(
            shorter[i] as int,
        ) by {
            assert(s[i] < s[s.len() - 1]);
        }
        assert forall|x: int| 0 <= x < hi - 1 && #[trigger] f(x) implies shorter.contains(
            x as u16,
        ) by {
            let j = s.index_of(x as u16);
            assert(s.contains(x as u16));
            assert(shorter[j] == x as u16);
        }
        lemma_listing_unique(shorter, f, hi - 1);
        assert(s =~= shorter.push((hi - 1) as u16));
    } else {
        assert forall|i: int| 0 <= i < s.len() implies #[trigger] s[i] < hi - 1 && f(
            s[i] as int,
        ) by {
            assert(s[i] < hi);
        }
        lemma_listing_unique(s, f, hi - 1);
    }
}

/// Predicates that agree below `hi` list alike.
pub proof fn lemma_listing_same(f: spec_fn(int) -> bool, g: spec_fn(int) -> bool, hi: int)
    requires
        forall|i: int| 0 <= i < hi ==> #[trigger] f(i) == g(i),
    ensures
        listing(f, hi) == listing(g, hi),
    decreases hi,
{
    if hi > 0 {
        lemma_listing_same(f, g, hi - 1);
        assert(f(hi - 1) == g(hi - 1));
    }
}

/// The numbers below `hi` that satisfy `f`, as a set.
pub open spec fn below(f: spec_fn(int) -> bool, hi: int) -> Set<u32> {
    Set::new(|d: u32| d < hi && f(d as int))
}

/// A set of numbers has as many elements as its predicate counts.
pub proof fn lemma_count_set(f: spec_fn(int) -> bool, hi: int)
    requires
        0 <= hi <= 0x1_0000_0000,
    ensures
        below(f, hi).finite(),
        below(f, hi).len() == count(f, 0, hi),
    decreases hi,
{
    if hi == 0 {
        assert(below(f, hi) =~= Set::<u32>::empty());
    } else {
        lemma_count_set(f, hi - 1);
        let smaller = below(f, hi - 1);
        if f(hi - 1) {
            assert(below(f, hi) =~= smaller.insert((hi - 1) as u32));
        } else {
            assert(below(f, hi) =~= smaller);
        }
    }
}

} // verus!
