//! The vocabulary in term order.
use super::accumulator::Accumulator;
use super::vocabulary::Vocabulary;
use crate::order::{before, comes_before, lemma_before_total, lemma_before_transitive};
use vstd::prelude::*;

verus! {

/// The terms of the identifiers ascend.
pub open spec fn in_order(names: Seq<Seq<u8>>, ids: Seq<u32>) -> bool {
    forall|i: int, j: int|
        0 <= i < j < ids.len() ==> before(
            names[#[trigger] ids[i] as int],
            names[#[trigger] ids[j] as int],
        )
}

/// Merges two ordered lists of identifiers.
fn merged(vocabulary: &Vocabulary, a: &Vec<u32>, b: &Vec<u32>) -> (out: Vec<u32>)
    requires
        vocabulary.wf(),
        in_order(vocabulary@, a@),
        in_order(vocabulary@, b@),
        forall|i: int| 0 <= i < a@.len() ==> #[trigger] a@[i] < vocabulary@.len(),
        forall|i: int| 0 <= i < b@.len() ==> #[trigger] b@[i] < vocabulary@.len(),
        forall|i: int, j: int|
            0 <= i < a@.len() && 0 <= j < b@.len() ==> #[trigger] a@[i] != #[trigger] b@[j],
    ensures
        in_order(vocabulary@, out@),
        out@.len() == a@.len() + b@.len(),
        forall|x: u32| #[trigger] out@.contains(x) == (a@.contains(x) || b@.contains(x)),
{
    let ghost names = vocabulary@;
    let mut out: Vec<u32> = Vec::new();
    let mut i: usize = 0;
    let mut j: usize = 0;
    while i < a.len() || j < b.len()
        invariant
            vocabulary.wf(),
            names == vocabulary@,
            i <= a@.len(),
            j <= b@.len(),
            in_order(names, a@),
            in_order(names, b@),
            in_order(names, out@),
            out@.len() == i + j,
            forall|k: int| 0 <= k < a@.len() ==> #[trigger] a@[k] < names.len(),
            forall|k: int| 0 <= k < b@.len() ==> #[trigger] b@[k] < names.len(),
            forall|k: int, l: int|
                0 <= k < a@.len() && 0 <= l < b@.len() ==> #[trigger] a@[k] != #[trigger] b@[l],
            forall|k: int|
                0 <= k < out@.len() && i < a@.len() ==> before(
                    names[#[trigger] out@[k] as int],
                    names[a@[i as int] as int],
                ),
            forall|k: int|
                0 <= k < out@.len() && j < b@.len() ==> before(
                    names[#[trigger] out@[k] as int],
                    names[b@[j as int] as int],
                ),
            forall|x: u32|
                #[trigger] out@.contains(x) == (a@.take(i as int).contains(x) || b@.take(
                    j as int,
                ).contains(x)),
        decreases a.len() - i + (b.len() - j),
    {
        let ghost had = out@;
        let take_a: bool = if i < a.len() && j < b.len() {
            assert(a@[i as int] < names.len());
            assert(b@[j as int] < names.len());
            comes_before(vocabulary.term(a[i]), vocabulary.term(b[j]))
        } else {
            i < a.len()
        };
        if take_a {
            let id: u32 = a[i];
            proof {
                lemma_contains_step(a@, i as int);
                if i + 1 < a@.len() {
                    let next = names[a@[i + 1] as int];
                    assert(before(names[a@[i as int] as int], next));
                    assert forall|k: int| 0 <= k < had.len() implies before(
                        names[#[trigger] had[k] as int],
                        next,
                    ) by {
                        lemma_before_transitive(
                            names[had[k] as int],
                            names[a@[i as int] as int],
                            next,
                        );
                    }
                }
            }
            out.push(id);
            i = i + 1;
        } else {
            let id: u32 = b[j];
            proof {
                lemma_contains_step(b@, j as int);
                if i < a@.len() {
                    let x = a@[i as int];
                    assert(x != id);
                    assert(names[x as int] != names[id as int]);
                    lemma_before_total(names[x as int], names[id as int]);
                    assert(before(names[id as int], names[x as int]));
                }
                if j + 1 < b@.len() {
                    let next = names[b@[j + 1] as int];
                    assert(before(names[b@[j as int] as int], next));
                    assert forall|k: int| 0 <= k < had.len() implies before(
                        names[#[trigger] had[k] as int],
                        next,
                    ) by {
                        lemma_before_transitive(
                            names[had[k] as int],
                            names[b@[j as int] as int],
                            next,
                        );
                    }
                }
            }
            out.push(id);
            j = j + 1;
        }
        proof {
            lemma_contains_push(had, out@.last());
            assert(out@ =~= had.push(out@.last()));
        }
    }
    proof {
        assert(a@.take(i as int) =~= a@);
        assert(b@.take(j as int) =~= b@);
    }
    out
}

proof fn lemma_contains_push(s: Seq<u32>, id: u32)
    ensures
        forall|x: u32| #[trigger] s.push(id).contains(x) == (s.contains(x) || x == id),
{
    assert forall|x: u32| #[trigger] s.push(id).contains(x) == (s.contains(x) || x == id) by {
        let longer = s.push(id);
        if s.contains(x) {
            let k = s.index_of(x);
            assert(longer[k] == x);
        }
        if x == id {
            assert(longer[s.len() as int] == x);
        }
        if longer.contains(x) && x != id {
            let k = longer.index_of(x);
            assert(s[k] == x);
        }
    }
}

proof fn lemma_contains_step(s: Seq<u32>, i: int)
    requires
        0 <= i < s.len(),
    ensures
        forall|x: u32|
            #[trigger] s.take(i + 1).contains(x) == (s.take(i).contains(x) || x == s[i]),
{
    assert(s.take(i + 1) =~= s.take(i).push(s[i]));
    lemma_contains_push(s.take(i), s[i]);
}

/// The identifiers from `lo` up to `hi` in term order.
fn sorted_between(vocabulary: &Vocabulary, lo: u32, hi: u32) -> (out: Vec<u32>)
    requires
        vocabulary.wf(),
        lo <= hi <= vocabulary@.len(),
    ensures
        in_order(vocabulary@, out@),
        out@.len() == hi - lo,
        forall|x: u32| #[trigger] out@.contains(x) == (lo <= x < hi),
    decreases hi - lo,
{
    if hi - lo <= 1 {
        let mut out: Vec<u32> = Vec::new();
        if lo < hi {
            proof {
                lemma_contains_push(out@, lo);
            }
            out.push(lo);
        }
        return out;
    }
    let mid: u32 = lo + (hi - lo) / 2;
    let a = sorted_between(vocabulary, lo, mid);
    let b = sorted_between(vocabulary, mid, hi);
    proof {
        assert forall|i: int| 0 <= i < a@.len() implies lo <= #[trigger] a@[i] < mid by {
            assert(a@.contains(a@[i]));
        }
        assert forall|i: int| 0 <= i < b@.len() implies mid <= #[trigger] b@[i] < hi by {
            assert(b@.contains(b@[i]));
        }
    }
    merged(vocabulary, &a, &b)
}

impl Accumulator {
    /// The vocabulary in term order, as identifiers.
    ///
    /// This is the only sort in an index build. A few hundred thousand terms
    /// against tens of millions of postings is the trade the whole module is
    /// arranged around.
    pub fn sorted(&self) -> (out: Vec<u32>)
        requires
            self.wf(),
        ensures
            in_order(self.vocabulary@, out@),
            out@.len() == self.vocabulary@.len(),
            forall|x: u32| #[trigger] out@.contains(x) == (x < self.vocabulary@.len()),
    {
        sorted_between(&self.vocabulary, 0, self.vocabulary.count())
    }
}

} // verus!
