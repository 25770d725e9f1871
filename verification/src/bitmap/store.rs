//! The members of one chunk, in whichever of three forms is in use.
use super::list::{
    add_all, in_list, keep_common, lemma_list_count, list_insert, list_remove, list_runs_within,
    list_set, search,
};
use super::runs::{
    covered, covered_by, in_runs, in_tail, lemma_runs_count, lemma_runs_starts, runs_difference,
    runs_insert, runs_intersect, runs_ok, runs_remove, runs_set, runs_union, Run,
};
use super::words::{in_words, keep_within, starts, words_set, Words};
use crate::bits::{bit, lemma_bit_ops, lemma_lowest};
use crate::count::{
    ascending, count, lemma_count_bound, lemma_count_same, lemma_listing_unique, listing,
};
use vstd::prelude::*;

verus! {

/// What a chunk held as bits costs, in bytes.
pub const BITS_BYTES: usize = 8192;

/// The most members a container holds as an array rather than as words.
pub const ARRAY_MAX: usize = 4096;

/// The members of one chunk.
#[derive(Debug)]
pub enum Store {
    /// The low sixteen bits of each member, ascending.
    Array(Vec<u16>),
    /// One bit per ordinal.
    Bits(Words),
    /// Ascending, non overlapping, non adjacent stretches.
    Runs(Vec<Run>),
}

/// Which of the three forms a chunk is held in.
#[derive(Debug, Clone, Copy, PartialEq, Eq, Structural)]
pub enum Held {
    Array,
    Bits,
    Runs,
}

/// How many ordinals of a chunk satisfy the predicate.
pub open spec fn members(f: spec_fn(int) -> bool) -> nat {
    count(f, 0, 65536)
}

/// How many stretches of consecutive ordinals of a chunk satisfy the predicate.
pub open spec fn stretches(f: spec_fn(int) -> bool) -> nat {
    count(starts(f), 0, 65536)
}

/// The form that costs the least: two bytes a member, four a stretch, or the
/// flat cost of the bits.
pub open spec fn cheapest(members: nat, stretches: nat) -> Held {
    if 4 * stretches < 2 * members && 4 * stretches < 8192 {
        Held::Runs
    } else if 2 * members < 8192 {
        Held::Array
    } else {
        Held::Bits
    }
}

/// What that form costs: two bytes a member of an array, four a run, and for bits
/// the words and the count kept beside them.
pub open spec fn least_cost(members: nat, stretches: nat) -> nat {
    match cheapest(members, stretches) {
        Held::Array => 2 * members,
        Held::Bits => 8192 + 4,
        Held::Runs => 4 * stretches,
    }
}

/// Predicates that agree on a chunk have as many members and stretches.
pub proof fn lemma_same_members(f: spec_fn(int) -> bool, g: spec_fn(int) -> bool)
    requires
        forall|x: int| 0 <= x < 65536 ==> #[trigger] f(x) == g(x),
    ensures
        members(f) == members(g),
        stretches(f) == stretches(g),
        listing(f, 65536) == listing(g, 65536),
{
    lemma_count_same(f, g, 0, 65536);
    assert forall|x: int| 0 <= x < 65536 implies #[trigger] starts(f)(x) == starts(g)(x) by {
        assert(f(x) == g(x));
        if x > 0 {
            assert(f(x - 1) == g(x - 1));
        }
    }
    lemma_count_same(starts(f), starts(g), 0, 65536);
    crate::count::lemma_listing_same(f, g, 65536);
}

impl Store {
    /// Whether the chunk holds `low`.
    pub open spec fn holds(&self, low: int) -> bool {
        match self {
            Store::Array(list) => in_list(list@, low),
            Store::Bits(words) => in_words(words.bits@, low),
            Store::Runs(runs) => in_runs(runs@, low),
        }
    }

    /// The members as a predicate.
    pub open spec fn set(&self) -> spec_fn(int) -> bool {
        |low: int| self.holds(low)
    }

    pub open spec fn wf(&self) -> bool {
        match self {
            Store::Array(list) => ascending(list@),
            Store::Bits(words) => words.wf(),
            Store::Runs(runs) => runs_ok(runs@),
        }
    }

    /// The form in use.
    pub open spec fn held(&self) -> Held {
        match self {
            Store::Array(_) => Held::Array,
            Store::Bits(_) => Held::Bits,
            Store::Runs(_) => Held::Runs,
        }
    }

    pub proof fn lemma_count(&self)
        requires
            self.wf(),
        ensures
            members(self.set()) <= 65536,
            stretches(self.set()) <= 65536,
            match self {
                Store::Array(list) => list@.len() == members(self.set()) && list@ == listing(
                    self.set(),
                    65536,
                ) && stretches(self.set()) == stretches(list_set(list@)),
                Store::Bits(words) => words.count == members(self.set()) && stretches(self.set())
                    == stretches(words_set(words.bits@)),
                Store::Runs(runs) => covered_by(runs@, runs@.len() as int) == members(self.set())
                    && runs@.len() == stretches(self.set()),
            },
    {
        lemma_count_bound(self.set(), 0, 65536);
        lemma_count_bound(starts(self.set()), 0, 65536);
        match self {
            Store::Array(list) => {
                lemma_list_count(list@);
                lemma_same_members(self.set(), list_set(list@));
            },
            Store::Bits(words) => {
                lemma_same_members(self.set(), words_set(words.bits@));
            },
            Store::Runs(runs) => {
                lemma_runs_count(runs@);
                lemma_runs_starts(runs@);
                lemma_same_members(self.set(), runs_set(runs@));
            },
        }
    }

    /// A second copy of the members, in the same form.
    pub fn copy(&self) -> (store: Store)
        requires
            self.wf(),
        ensures
            store.wf(),
            store.held() == self.held(),
            forall|x: int| #[trigger] store.holds(x) == self.holds(x),
    {
        match self {
            Store::Array(list) => Store::Array(vstd::slice::slice_to_vec(list.as_slice())),
            Store::Bits(words) => Store::Bits(words.copy()),
            Store::Runs(runs) => Store::Runs(vstd::slice::slice_to_vec(runs.as_slice())),
        }
    }

    /// Whether both hold the same, in whichever forms they are.
    pub fn same(&self, other: &Store) -> (same: bool)
        requires
            self.wf(),
            other.wf(),
        ensures
            same == (forall|x: int|
                0 <= x < 65536 ==> (#[trigger] self.holds(x) == other.holds(x))),
    {
        let mine = self.collect_array();
        let theirs = other.collect_array();
        proof {
            if mine@ == theirs@ {
                assert forall|x: int| 0 <= x < 65536 implies #[trigger] self.holds(x)
                    == other.holds(x) by {
                    assert(in_list(mine@, x) == self.holds(x));
                    assert(in_list(theirs@, x) == other.holds(x));
                }
            }
            if forall|x: int| 0 <= x < 65536 ==> (#[trigger] self.holds(x) == other.holds(x)) {
                assert forall|x: int| 0 <= x < 65536 implies #[trigger] self.set()(x)
                    == other.set()(x) by {
                    assert(self.holds(x) == other.holds(x));
                }
                lemma_same_members(self.set(), other.set());
            }
        }
        if mine.len() != theirs.len() {
            return false;
        }
        let mut i: usize = 0;
        while i < mine.len()
            invariant
                i <= mine@.len(),
                mine@.len() == theirs@.len(),
                forall|k: int| 0 <= k < i ==> mine@[k] == theirs@[k],
                mine@ != theirs@ ==> !(forall|x: int|
                    0 <= x < 65536 ==> (#[trigger] self.holds(x) == other.holds(x))),
            decreases mine.len() - i,
        {
            if mine[i] != theirs[i] {
                return false;
            }
            i = i + 1;
        }
        assert(mine@ =~= theirs@);
        true
    }

    /// Which form the chunk is in.
    pub fn form(&self) -> (held: Held)
        ensures
            held == self.held(),
    {
        match self {
            Store::Array(_) => Held::Array,
            Store::Bits(_) => Held::Bits,
            Store::Runs(_) => Held::Runs,
        }
    }

    /// How many ordinals the chunk holds.
    pub fn len(&self) -> (n: usize)
        requires
            self.wf(),
        ensures
            n == members(self.set()),
            n <= 65536,
    {
        proof {
            self.lemma_count();
        }
        match self {
            Store::Array(list) => list.len(),
            Store::Bits(words) => words.count as usize,
            Store::Runs(runs) => {
                let mut total: usize = 0;
                let mut i: usize = 0;
                proof {
                    lemma_runs_count(runs@);
                }
                while i < runs.len()
                    invariant
                        i <= runs@.len(),
                        runs_ok(runs@),
                        total == covered_by(runs@, i as int),
                        covered_by(runs@, runs@.len() as int) <= 65536,
                    decreases runs.len() - i,
                {
                    proof {
                        lemma_covered_grows(runs@, i + 1, runs@.len() as int);
                        assert(runs@[i as int].start <= runs@[i as int].last);
                    }
                    total = total + (runs[i].last as usize - runs[i].start as usize + 1);
                    i = i + 1;
                }
                total
            },
        }
    }

    /// The largest member of the chunk, or nothing if it holds none.
    pub fn last(&self) -> (low: Option<u16>)
        requires
            self.wf(),
        ensures
            match low {
                Some(low) => self.holds(low as int) && forall|x: int|
                    low < x < 65536 ==> !#[trigger] self.holds(x),
                None => forall|x: int| !#[trigger] self.holds(x),
            },
    {
        match self {
            Store::Array(list) => {
                if list.len() == 0 {
                    return None;
                }
                let low: u16 = list[list.len() - 1];
                proof {
                    assert forall|x: int| low < x < 65536 implies !#[trigger] self.holds(x) by {
                        if in_list(list@, x) {
                            let k = list@.index_of(x as u16);
                            if k < list@.len() - 1 {
                                assert(list@[k] < list@[list@.len() - 1]);
                            }
                        }
                    }
                    assert(in_list(list@, low as int));
                }
                Some(low)
            },
            Store::Bits(words) => {
                let low = words.last();
                proof {
                    if low is Some {
                        assert(self.holds(low->0 as int));
                    }
                    assert forall|x: int| self.holds(x) == in_words(words.bits@, x) by {}
                }
                low
            },
            Store::Runs(runs) => {
                if runs.len() == 0 {
                    return None;
                }
                let low: u16 = runs[runs.len() - 1].last;
                proof {
                    assert(runs@[runs@.len() - 1].start <= low <= runs@[runs@.len() - 1].last);
                    assert forall|x: int| low < x < 65536 implies !#[trigger] self.holds(x) by {
                        super::runs::lemma_past_runs(runs@, x);
                    }
                }
                Some(low)
            },
        }
    }

    pub fn is_empty(&self) -> (empty: bool)
        requires
            self.wf(),
        ensures
            empty == (members(self.set()) == 0),
            empty <==> forall|x: int| !#[trigger] self.holds(x),
    {
        proof {
            self.lemma_count();
            self.lemma_empty();
        }
        match self {
            Store::Array(list) => list.len() == 0,
            Store::Bits(words) => words.count == 0,
            Store::Runs(runs) => {
                proof {
                    if runs@.len() > 0 {
                        assert(runs@[0].start <= runs@[0].start <= runs@[0].last);
                        assert(self.holds(runs@[0].start as int));
                    }
                }
                runs.len() == 0
            },
        }
    }

    pub proof fn lemma_empty(&self)
        requires
            self.wf(),
        ensures
            members(self.set()) == 0 <==> forall|x: int| !#[trigger] self.holds(x),
    {
        if members(self.set()) == 0 {
            assert forall|x: int| !#[trigger] self.holds(x) by {
                if self.holds(x) {
                    assert(0 <= x < 65536);
                    assert(self.set()(x));
                    crate::count::lemma_count_some(self.set(), 0, 65536, x);
                }
            }
        } else {
            let x = crate::count::lemma_count_found(self.set(), 0, 65536);
            assert(self.holds(x));
        }
    }

    pub fn contains(&self, low: u16) -> (held: bool)
        requires
            self.wf(),
        ensures
            held == self.holds(low as int),
    {
        match self {
            Store::Array(list) => search(list.as_slice(), low).is_ok(),
            Store::Bits(words) => words.contains(low),
            Store::Runs(runs) => covered(runs.as_slice(), low).is_ok(),
        }
    }

    /// What the members cost in memory in the form that costs the least, in bytes.
    pub fn memory(&self) -> (bytes: usize)
        requires
            self.wf(),
        ensures
            bytes == least_cost(members(self.set()), stretches(self.set())),
            bytes <= 8196,
    {
        proof {
            self.lemma_count();
        }
        let as_array: usize = self.len() * 2;
        let least: usize = if as_array <= BITS_BYTES {
            as_array
        } else {
            BITS_BYTES
        };
        let as_runs: usize = self.runs_within(least / 4) * 4;
        if as_runs < as_array && as_runs < BITS_BYTES {
            as_runs
        } else if as_array < BITS_BYTES {
            as_array
        } else {
            BITS_BYTES + 4
        }
    }

    /// Adds `low` and reports whether it was not already there.
    pub fn insert(&mut self, low: u16) -> (added: bool)
        requires
            old(self).wf(),
        ensures
            final(self).wf(),
            added == !old(self).holds(low as int),
            forall|x: int|
                0 <= x < 65536 ==> (#[trigger] final(self).holds(x) == (old(self).holds(x) || x
                    == low)),
            final(self).held() == if old(self).held() == Held::Array && added && members(
                final(self).set(),
            ) > 4096 {
                cheapest(members(final(self).set()), stretches(final(self).set()))
            } else {
                old(self).held()
            },
    {
        let mut crowded: bool = false;
        let added: bool = match self {
            Store::Array(list) => {
                let added = list_insert(list, low);
                proof {
                    lemma_list_count(list@);
                }
                crowded = added && list.len() * 2 > BITS_BYTES;
                added
            },
            Store::Bits(words) => words.insert(low),
            Store::Runs(runs) => runs_insert(runs, low),
        };
        proof {
            self.lemma_count();
        }
        let ghost grown = *self;
        if crowded {
            self.shrink();
            proof {
                assert forall|x: int| 0 <= x < 65536 implies #[trigger] self.set()(x)
                    == grown.set()(x) by {
                    assert(self.holds(x) == grown.holds(x));
                }
                lemma_same_members(self.set(), grown.set());
            }
        }
        added
    }

    /// Removes `low` and reports whether it was there.
    pub fn remove(&mut self, low: u16) -> (removed: bool)
        requires
            old(self).wf(),
        ensures
            final(self).wf(),
            removed == old(self).holds(low as int),
            forall|x: int|
                0 <= x < 65536 ==> (#[trigger] final(self).holds(x) == (old(self).holds(x) && x
                    != low)),
            final(self).held() == old(self).held(),
    {
        match self {
            Store::Array(list) => list_remove(list, low),
            Store::Bits(words) => words.remove(low),
            Store::Runs(runs) => runs_remove(runs, low),
        }
    }

    /// Renders the chunk as words, whatever it is holding now.
    pub fn to_words(&self) -> (words: Words)
        requires
            self.wf(),
        ensures
            words.wf(),
            forall|x: int|
                0 <= x < 65536 ==> (#[trigger] in_words(words.bits@, x) == self.holds(x)),
    {
        match self {
            Store::Bits(words) => words.copy(),
            Store::Array(list) => {
                let mut words = Words::empty();
                add_list(&mut words, list.as_slice());
                words
            },
            Store::Runs(runs) => {
                let mut words = Words::empty();
                add_runs(&mut words, runs.as_slice());
                words
            },
        }
    }

    /// How many stretches of consecutive ordinals the chunk holds, given up on
    /// once the count passes `cap`.
    ///
    /// The answer is exact while it is at or below `cap` and merely larger than
    /// `cap` above it, which is all that choosing a form needs and is the
    /// difference between reading a word or two of a scattered chunk and
    /// reading all thousand of them.
    pub fn runs_within(&self, cap: usize) -> (found: usize)
        requires
            self.wf(),
        ensures
            found <= stretches(self.set()),
            found <= cap ==> found == stretches(self.set()),
            found <= 65536,
    {
        proof {
            self.lemma_count();
        }
        match self {
            Store::Runs(runs) => runs.len(),
            Store::Array(list) => list_runs_within(list.as_slice(), cap),
            Store::Bits(words) => words.runs_within(cap),
        }
    }

    /// Switches to whichever of the three is smallest.
    pub fn shrink(&mut self)
        requires
            old(self).wf(),
        ensures
            final(self).wf(),
            forall|x: int|
                0 <= x < 65536 ==> (#[trigger] final(self).holds(x) == old(self).holds(x)),
            final(self).held() == cheapest(
                members(final(self).set()),
                stretches(final(self).set()),
            ),
    {
        let ghost before = *self;
        let len: usize = self.len();
        let as_array: usize = len * 2;
        let least: usize = if as_array <= BITS_BYTES {
            as_array
        } else {
            BITS_BYTES
        };
        let runs: usize = self.runs_within(least / 4);
        let as_runs: usize = runs * 4;
        if as_runs < as_array && as_runs < BITS_BYTES {
            match self {
                Store::Runs(_) => {},
                _ => {
                    let replacement = Store::Runs(self.collect_runs());
                    *self = replacement;
                },
            }
        } else if as_array < BITS_BYTES {
            match self {
                Store::Array(_) => {},
                _ => {
                    let replacement = Store::Array(self.collect_array());
                    *self = replacement;
                },
            }
        } else {
            match self {
                Store::Bits(_) => {},
                _ => {
                    let replacement = Store::Bits(self.to_words());
                    *self = replacement;
                },
            }
        }
        proof {
            assert forall|x: int| 0 <= x < 65536 implies #[trigger] self.set()(x) == before.set()(
                x,
            ) by {
                assert(self.holds(x) == before.holds(x));
            }
            lemma_same_members(self.set(), before.set());
        }
    }

    /// The members, ascending.
    pub fn collect_array(&self) -> (out: Vec<u16>)
        requires
            self.wf(),
        ensures
            ascending(out@),
            out@ == listing(self.set(), 65536),
            forall|x: int| 0 <= x < 65536 ==> (#[trigger] in_list(out@, x) == self.holds(x)),
    {
        let mut out: Vec<u16> = Vec::new();
        let mut walk = WalkStore::new(self);
        let mut more: bool = true;
        while more
            invariant
                walk.wf(),
                walk.store == self,
                ascending(out@),
                forall|x: int|
                    0 <= x < 65536 ==> (#[trigger] self.holds(x) == (in_list(out@, x) || walk.left(
                        x,
                    ))),
                forall|i: int, x: int|
                    0 <= i < out@.len() && #[trigger] walk.left(x) ==> #[trigger] out@[i] < x,
                forall|x: int| #[trigger] walk.left(x) ==> 0 <= x < 65536,
                !more ==> forall|x: int| !#[trigger] walk.left(x),
            decreases (if more {
                1int
            } else {
                0int
            }), 65536 - out@.len(),
        {
            let ghost had = out@;
            let ghost prior = walk;
            match walk.next() {
                Some(low) => {
                    out.push(low);
                    proof {
                        lemma_list_count(out@);
                        assert forall|x: int| 0 <= x < 65536 implies #[trigger] self.holds(x) == (
                        in_list(out@, x) || walk.left(x)) by {
                            assert(self.holds(x) == (in_list(had, x) || prior.left(x)));
                            assert(walk.left(x) == (prior.left(x) && x != low));
                            if in_list(had, x) {
                                let k = had.index_of(x as u16);
                                assert(out@[k] == x as u16);
                            }
                            if x == low {
                                assert(out@[had.len() as int] == x as u16);
                            }
                            if in_list(out@, x) {
                                let k = out@.index_of(x as u16);
                                if k < had.len() {
                                    assert(had[k] == x as u16);
                                }
                            }
                        }
                    }
                },
                None => {
                    more = false;
                },
            }
        }
        proof {
            let f = self.set();
            assert forall|i: int| 0 <= i < out@.len() implies #[trigger] out@[i] < 65536 && f(
                out@[i] as int,
            ) by {
                assert(in_list(out@, out@[i] as int));
                assert(self.holds(out@[i] as int));
            }
            assert forall|x: int| 0 <= x < 65536 && #[trigger] f(x) implies out@.contains(
                x as u16,
            ) by {
                assert(self.holds(x));
            }
            lemma_listing_unique(out@, f, 65536);
        }
        out
    }

    /// The stretches of the members.
    pub fn collect_runs(&self) -> (out: Vec<Run>)
        requires
            self.wf(),
        ensures
            runs_ok(out@),
            forall|x: int| 0 <= x < 65536 ==> (#[trigger] in_runs(out@, x) == self.holds(x)),
    {
        let list = self.collect_array();
        let mut out: Vec<Run> = Vec::new();
        let mut i: usize = 0;
        while i < list.len()
            invariant
                i <= list@.len(),
                ascending(list@),
                runs_ok(out@),
                i > 0 ==> out@.len() > 0 && out@[out@.len() - 1].last == list@[i - 1],
                i == 0 ==> out@.len() == 0,
                forall|x: int|
                    0 <= x < 65536 ==> (#[trigger] in_runs(out@, x) == in_list(
                        list@.take(i as int),
                        x,
                    )),
            decreases list.len() - i,
        {
            let low: u16 = list[i];
            let n: usize = out.len();
            let ghost had = out@;
            if i > 0 {
                assert(list@[i - 1] < list@[i as int]);
            }
            if n > 0 && out[n - 1].last as u32 + 1 == low as u32 {
                let grown = Run { start: out[n - 1].start, last: low };
                out.set(n - 1, grown);
            } else {
                out.push(Run { start: low, last: low });
                proof {
                    assert forall|k: int| 0 <= k < had.len() implies (#[trigger] had[k]).last + 1
                        < low by {
                        if k < had.len() - 1 {
                            assert(had[k].last + 1 < had[had.len() - 1].start);
                        }
                    }
                }
            }
            proof {
                let taken = list@.take(i as int);
                let more = list@.take(i + 1);
                assert(more =~= taken.push(low));
                assert forall|x: int| 0 <= x < 65536 implies #[trigger] in_runs(out@, x)
                    == in_list(more, x) by {
                    assert(in_runs(had, x) == in_list(taken, x));
                    if in_runs(had, x) {
                        let k = choose|k: int|
                            0 <= k < had.len() && (#[trigger] had[k]).start <= x <= had[k].last;
                        assert(out@[k].start <= x <= out@[k].last);
                        let j = taken.index_of(x as u16);
                        assert(more[j] == x as u16);
                    }
                    if x == low {
                        assert(out@[out@.len() - 1].start <= x <= out@[out@.len() - 1].last);
                        assert(more[i as int] == x as u16);
                    }
                    if in_runs(out@, x) && x != low {
                        let k = choose|k: int|
                            0 <= k < out@.len() && (#[trigger] out@[k]).start <= x <= out@[k].last;
                        assert(had[k].start <= x <= had[k].last);
                    }
                    if in_list(more, x) && x != low {
                        let k = more.index_of(x as u16);
                        assert(taken[k] == x as u16);
                    }
                }
            }
            i = i + 1;
        }
        proof {
            assert(list@.take(i as int) =~= list@);
        }
        out
    }

    /// Keeps what both hold.
    pub fn intersect(&mut self, other: &Store)
        requires
            old(self).wf(),
            other.wf(),
        ensures
            final(self).wf(),
            forall|x: int|
                0 <= x < 65536 ==> (#[trigger] final(self).holds(x) == (old(self).holds(x)
                    && other.holds(x))),
            final(self).held() == cheapest(
                members(final(self).set()),
                stretches(final(self).set()),
            ),
    {
        let replacement: Option<Store> = match self {
            Store::Array(mine) => {
                match other {
                    Store::Array(theirs) => keep_common(mine, theirs.as_slice()),
                    _ => keep_held(mine, other, true),
                }
                None
            },
            Store::Runs(mine) => match other {
                Store::Runs(theirs) => {
                    let common = runs_intersect(mine.as_slice(), theirs.as_slice());
                    *mine = common;
                    None
                },
                Store::Bits(theirs) => {
                    let mut words = theirs.copy();
                    keep_within(&mut words, mine.as_slice());
                    Some(Store::Bits(words))
                },
                Store::Array(theirs) => {
                    let mut list = vstd::slice::slice_to_vec(theirs.as_slice());
                    keep_held(&mut list, self, true);
                    Some(Store::Array(list))
                },
            },
            Store::Bits(mine) => match other {
                Store::Bits(theirs) => {
                    mine.keep(theirs);
                    None
                },
                // A group wide permission filter meeting a term's candidates is
                // this pair, so it does not go the long way round.
                Store::Runs(theirs) => {
                    keep_within(mine, theirs.as_slice());
                    None
                },
                // The result cannot be larger than the other side when the
                // other side is an array, so build one rather than a word
                // block that would be shrunk right back.
                Store::Array(theirs) => {
                    let mut list = vstd::slice::slice_to_vec(theirs.as_slice());
                    keep_held(&mut list, self, true);
                    Some(Store::Array(list))
                },
            },
        };
        match replacement {
            Some(store) => {
                *self = store;
            },
            None => {},
        }
        self.shrink();
    }

    /// Adds what the other holds.
    pub fn union(&mut self, other: &Store)
        requires
            old(self).wf(),
            other.wf(),
        ensures
            final(self).wf(),
            forall|x: int|
                0 <= x < 65536 ==> (#[trigger] final(self).holds(x) == (old(self).holds(x)
                    || other.holds(x))),
            final(self).held() == cheapest(
                members(final(self).set()),
                stretches(final(self).set()),
            ),
    {
        let mut pending: bool = false;
        match self {
            Store::Array(mine) => match other {
                Store::Array(theirs) => add_all(mine, theirs.as_slice()),
                _ => {
                    pending = true;
                },
            },
            Store::Runs(mine) => match other {
                Store::Runs(theirs) => {
                    let either = runs_union(mine.as_slice(), theirs.as_slice());
                    *mine = either;
                },
                _ => {
                    pending = true;
                },
            },
            Store::Bits(mine) => match other {
                Store::Bits(theirs) => mine.join(theirs),
                Store::Array(theirs) => add_list(mine, theirs.as_slice()),
                Store::Runs(theirs) => add_runs(mine, theirs.as_slice()),
            },
        }
        if pending {
            let mut mine = self.to_words();
            let theirs = other.to_words();
            mine.join(&theirs);
            *self = Store::Bits(mine);
        }
        self.shrink();
    }

    /// Takes away what the other holds.
    pub fn difference(&mut self, other: &Store)
        requires
            old(self).wf(),
            other.wf(),
        ensures
            final(self).wf(),
            forall|x: int|
                0 <= x < 65536 ==> (#[trigger] final(self).holds(x) == (old(self).holds(x)
                    && !other.holds(x))),
            final(self).held() == cheapest(
                members(final(self).set()),
                stretches(final(self).set()),
            ),
    {
        let mut pending: bool = false;
        match self {
            Store::Array(mine) => keep_held(mine, other, false),
            Store::Runs(mine) => match other {
                Store::Runs(theirs) => {
                    let only = runs_difference(mine.as_slice(), theirs.as_slice());
                    *mine = only;
                },
                _ => {
                    pending = true;
                },
            },
            Store::Bits(mine) => match other {
                Store::Bits(theirs) => mine.cut(theirs),
                Store::Array(theirs) => cut_list(mine, theirs.as_slice()),
                Store::Runs(theirs) => cut_runs(mine, theirs.as_slice()),
            },
        }
        if pending {
            let mut mine = self.to_words();
            let theirs = other.to_words();
            mine.cut(&theirs);
            *self = Store::Bits(mine);
        }
        self.shrink();
    }
}

proof fn lemma_covered_grows(runs: Seq<Run>, a: int, b: int)
    requires
        0 <= a <= b <= runs.len(),
        runs_ok(runs),
    ensures
        covered_by(runs, a) <= covered_by(runs, b),
    decreases b - a,
{
    if a < b {
        lemma_covered_grows(runs, a, b - 1);
        assert(runs[b - 1].start <= runs[b - 1].last);
    }
}

/// Keeps the ordinals of a list that a chunk holds, or those it does not.
fn keep_held(list: &mut Vec<u16>, other: &Store, wanted: bool)
    requires
        ascending(old(list)@),
        other.wf(),
    ensures
        ascending(final(list)@),
        forall|x: int|
            0 <= x < 65536 ==> (#[trigger] in_list(final(list)@, x) == (in_list(old(list)@, x)
                && other.holds(x) == wanted)),
{
    let ghost before = list@;
    let mut kept: Vec<u16> = Vec::new();
    let mut i: usize = 0;
    while i < list.len()
        invariant
            i <= list@.len(),
            list@ == before,
            other.wf(),
            ascending(before),
            ascending(kept@),
            i < before.len() ==> forall|k: int|
                0 <= k < kept@.len() ==> #[trigger] kept@[k] < before[i as int],
            forall|x: int|
                0 <= x < 65536 ==> (#[trigger] in_list(kept@, x) == (in_list(
                    before.take(i as int),
                    x,
                ) && other.holds(x) == wanted)),
        decreases list.len() - i,
    {
        let low: u16 = list[i];
        let ghost had = kept@;
        let keep: bool = other.contains(low) == wanted;
        if keep {
            kept.push(low);
        }
        proof {
            let taken = before.take(i as int);
            let more = before.take(i + 1);
            assert(more =~= taken.push(low));
            assert forall|x: int| 0 <= x < 65536 implies #[trigger] in_list(kept@, x) == (in_list(
                more,
                x,
            ) && other.holds(x) == wanted) by {
                assert(in_list(had, x) == (in_list(taken, x) && other.holds(x) == wanted));
                if in_list(taken, x) {
                    let k = taken.index_of(x as u16);
                    assert(more[k] == x as u16);
                }
                if x == low {
                    assert(more[i as int] == x as u16);
                    if keep {
                        assert(kept@[had.len() as int] == x as u16);
                    }
                }
                if in_list(more, x) && x != low {
                    let k = more.index_of(x as u16);
                    assert(taken[k] == x as u16);
                }
                if in_list(had, x) {
                    let k = had.index_of(x as u16);
                    assert(kept@[k] == x as u16);
                }
                if in_list(kept@, x) && x != low {
                    let k = kept@.index_of(x as u16);
                    assert(had[k] == x as u16);
                }
                if in_list(kept@, x) && x == low && !keep {
                    let k = had.index_of(x as u16);
                    assert(had[k] < before[i as int]);
                }
            }
        }
        i = i + 1;
    }
    proof {
        assert(before.take(i as int) =~= before);
    }
    *list = kept;
}

/// Sets the bit of every ordinal of the list.
fn add_list(words: &mut Words, list: &[u16])
    requires
        old(words).wf(),
    ensures
        final(words).wf(),
        forall|x: int|
            0 <= x < 65536 ==> (#[trigger] in_words(final(words).bits@, x) == (in_words(
                old(words).bits@,
                x,
            ) || in_list(list@, x))),
{
    let ghost before = words.bits@;
    let mut i: usize = 0;
    while i < list.len()
        invariant
            i <= list@.len(),
            words.wf(),
            forall|x: int|
                0 <= x < 65536 ==> (#[trigger] in_words(words.bits@, x) == (in_words(before, x)
                    || in_list(list@.take(i as int), x))),
        decreases list.len() - i,
    {
        let ghost had = words.bits@;
        words.insert(list[i]);
        proof {
            lemma_take_next(list@, i as int);
            assert forall|x: int| 0 <= x < 65536 implies #[trigger] in_words(words.bits@, x) == (
            in_words(before, x) || in_list(list@.take(i + 1), x)) by {
                assert(in_words(had, x) == (in_words(before, x) || in_list(
                    list@.take(i as int),
                    x,
                )));
                assert(in_list(list@.take(i + 1), x) == (in_list(list@.take(i as int), x) || x
                    == list@[i as int]));
            }
        }
        i = i + 1;
    }
    proof {
        assert(list@.take(i as int) =~= list@);
    }
}

/// Clears the bit of every ordinal of the list.
fn cut_list(words: &mut Words, list: &[u16])
    requires
        old(words).wf(),
    ensures
        final(words).wf(),
        forall|x: int|
            0 <= x < 65536 ==> (#[trigger] in_words(final(words).bits@, x) == (in_words(
                old(words).bits@,
                x,
            ) && !in_list(list@, x))),
{
    let ghost before = words.bits@;
    let mut i: usize = 0;
    while i < list.len()
        invariant
            i <= list@.len(),
            words.wf(),
            forall|x: int|
                0 <= x < 65536 ==> (#[trigger] in_words(words.bits@, x) == (in_words(before, x)
                    && !in_list(list@.take(i as int), x))),
        decreases list.len() - i,
    {
        let ghost had = words.bits@;
        words.remove(list[i]);
        proof {
            lemma_take_next(list@, i as int);
            assert forall|x: int| 0 <= x < 65536 implies #[trigger] in_words(words.bits@, x) == (
            in_words(before, x) && !in_list(list@.take(i + 1), x)) by {
                assert(in_words(had, x) == (in_words(before, x) && !in_list(
                    list@.take(i as int),
                    x,
                )));
                assert(in_list(list@.take(i + 1), x) == (in_list(list@.take(i as int), x) || x
                    == list@[i as int]));
            }
        }
        i = i + 1;
    }
    proof {
        assert(list@.take(i as int) =~= list@);
    }
}

proof fn lemma_take_next(list: Seq<u16>, i: int)
    requires
        0 <= i < list.len(),
    ensures
        forall|x: int|
            0 <= x < 65536 ==> (#[trigger] in_list(list.take(i + 1), x) == (in_list(
                list.take(i),
                x,
            ) || x == list[i])),
{
    let taken = list.take(i);
    let more = list.take(i + 1);
    assert forall|x: int| 0 <= x < 65536 implies #[trigger] in_list(more, x) == (in_list(taken, x)
        || x == list[i]) by {
        if in_list(taken, x) {
            let k = taken.index_of(x as u16);
            assert(more[k] == x as u16);
        }
        if x == list[i] {
            assert(more[i] == x as u16);
        }
        if in_list(more, x) && x != list[i] {
            let k = more.index_of(x as u16);
            assert(taken[k] == x as u16);
        }
    }
}

/// Sets every bit the runs cover.
fn add_runs(words: &mut Words, runs: &[Run])
    requires
        old(words).wf(),
        runs_ok(runs@),
    ensures
        final(words).wf(),
        forall|x: int|
            0 <= x < 65536 ==> (#[trigger] in_words(final(words).bits@, x) == (in_words(
                old(words).bits@,
                x,
            ) || in_runs(runs@, x))),
{
    let ghost before = words.bits@;
    let mut i: usize = 0;
    while i < runs.len()
        invariant
            i <= runs@.len(),
            words.wf(),
            runs_ok(runs@),
            forall|x: int|
                0 <= x < 65536 ==> (#[trigger] in_words(words.bits@, x) == (in_words(before, x)
                    || in_runs(runs@.take(i as int), x))),
        decreases runs.len() - i,
    {
        let ghost had = words.bits@;
        words.fill(runs[i]);
        proof {
            lemma_take_next_run(runs@, i as int);
            assert forall|x: int| 0 <= x < 65536 implies #[trigger] in_words(words.bits@, x) == (
            in_words(before, x) || in_runs(runs@.take(i + 1), x)) by {
                assert(in_words(had, x) == (in_words(before, x) || in_runs(
                    runs@.take(i as int),
                    x,
                )));
                assert(in_runs(runs@.take(i + 1), x) == (in_runs(runs@.take(i as int), x)
                    || runs@[i as int].start <= x <= runs@[i as int].last));
            }
        }
        i = i + 1;
    }
    proof {
        assert(runs@.take(i as int) =~= runs@);
    }
}

/// Clears every bit the runs cover.
fn cut_runs(words: &mut Words, runs: &[Run])
    requires
        old(words).wf(),
        runs_ok(runs@),
    ensures
        final(words).wf(),
        forall|x: int|
            0 <= x < 65536 ==> (#[trigger] in_words(final(words).bits@, x) == (in_words(
                old(words).bits@,
                x,
            ) && !in_runs(runs@, x))),
{
    let ghost before = words.bits@;
    let mut i: usize = 0;
    while i < runs.len()
        invariant
            i <= runs@.len(),
            words.wf(),
            runs_ok(runs@),
            forall|x: int|
                0 <= x < 65536 ==> (#[trigger] in_words(words.bits@, x) == (in_words(before, x)
                    && !in_runs(runs@.take(i as int), x))),
        decreases runs.len() - i,
    {
        let ghost had = words.bits@;
        words.clear(runs[i]);
        proof {
            lemma_take_next_run(runs@, i as int);
            assert forall|x: int| 0 <= x < 65536 implies #[trigger] in_words(words.bits@, x) == (
            in_words(before, x) && !in_runs(runs@.take(i + 1), x)) by {
                assert(in_words(had, x) == (in_words(before, x) && !in_runs(
                    runs@.take(i as int),
                    x,
                )));
                assert(in_runs(runs@.take(i + 1), x) == (in_runs(runs@.take(i as int), x)
                    || runs@[i as int].start <= x <= runs@[i as int].last));
            }
        }
        i = i + 1;
    }
    proof {
        assert(runs@.take(i as int) =~= runs@);
    }
}

proof fn lemma_take_next_run(runs: Seq<Run>, i: int)
    requires
        0 <= i < runs.len(),
    ensures
        forall|x: int|
            #[trigger] in_runs(runs.take(i + 1), x) == (in_runs(runs.take(i), x) || runs[i].start
                <= x <= runs[i].last),
{
    let taken = runs.take(i);
    let more = runs.take(i + 1);
    assert forall|x: int| #[trigger] in_runs(more, x) == (in_runs(taken, x) || runs[i].start <= x
        <= runs[i].last) by {
        if in_runs(taken, x) {
            let k = choose|k: int|
                0 <= k < taken.len() && (#[trigger] taken[k]).start <= x <= taken[k].last;
            assert(more[k].start <= x <= more[k].last);
        }
        if runs[i].start <= x <= runs[i].last {
            assert(more[i].start <= x <= more[i].last);
        }
        if in_runs(more, x) {
            let k = choose|k: int|
                0 <= k < more.len() && (#[trigger] more[k]).start <= x <= more[k].last;
            if k < i {
                assert(taken[k].start <= x <= taken[k].last);
            }
        }
    }
}

/// A walk over one chunk's members in ascending order, whatever form it is in.
#[derive(Debug)]
pub struct WalkStore<'a> {
    pub store: &'a Store,
    /// The next entry of an array, or the run being walked.
    pub at: usize,
    /// How far into that run the walk has got.
    pub offset: u32,
    /// The remaining bits of the word being drained.
    pub word: u64,
    pub word_index: usize,
    pub primed: bool,
}

impl<'a> WalkStore<'a> {
    pub open spec fn wf(&self) -> bool {
        &&& self.store.wf()
        &&& match self.store {
            Store::Array(list) => self.at <= list@.len(),
            Store::Runs(runs) => {
                &&& self.at <= runs@.len()
                &&& self.offset <= 65536
            },
            Store::Bits(words) => self.primed ==> {
                &&& self.word_index <= 1024
                &&& self.word_index == 1024 ==> self.word == 0
            },
        }
    }

    /// Whether `x` is still to come.
    pub open spec fn left(&self, x: int) -> bool {
        match self.store {
            Store::Array(list) => exists|i: int| self.at <= i < list@.len() && #[trigger] list@[i] == x,
            Store::Runs(runs) => {
                ||| self.at < runs@.len() && runs@[self.at as int].start + self.offset <= x
                    <= runs@[self.at as int].last
                ||| in_tail(runs@, self.at + 1, x)
            },
            Store::Bits(words) => {
                if !self.primed {
                    in_words(words.bits@, x)
                } else {
                    0 <= x < 65536 && if x / 64 == self.word_index {
                        bit(self.word, x % 64)
                    } else {
                        x / 64 > self.word_index && in_words(words.bits@, x)
                    }
                }
            },
        }
    }

    pub fn new(store: &'a Store) -> (walk: Self)
        requires
            store.wf(),
        ensures
            walk.wf(),
            walk == (WalkStore {
                store,
                at: 0,
                offset: 0,
                word: 0,
                word_index: 0,
                primed: false,
            }),
            forall|x: int| #[trigger] walk.left(x) == store.holds(x),
    {
        let walk = WalkStore { store, at: 0, offset: 0, word: 0, word_index: 0, primed: false };
        proof {
            assert forall|x: int| #[trigger] walk.left(x) == store.holds(x) by {
                match store {
                    Store::Array(list) => {
                        if in_list(list@, x) {
                            let k = list@.index_of(x as u16);
                            assert(list@[k] == x);
                        }
                        if walk.left(x) {
                            let k = choose|i: int| 0 <= i < list@.len() && #[trigger] list@[i] == x;
                            assert(list@.contains(x as u16));
                        }
                    },
                    Store::Runs(runs) => {
                        if in_runs(runs@, x) {
                            let k = choose|k: int|
                                0 <= k < runs@.len() && (#[trigger] runs@[k]).start <= x
                                    <= runs@[k].last;
                            if k > 0 {
                                assert(in_tail(runs@, 1, x));
                            }
                        }
                        if in_tail(runs@, 1, x) {
                            let k = choose|k: int|
                                1 <= k < runs@.len() && (#[trigger] runs@[k]).start <= x
                                    <= runs@[k].last;
                            assert(runs@[k].start <= x <= runs@[k].last);
                        }
                    },
                    Store::Bits(_) => {},
                }
            }
        }
        walk
    }

    /// The smallest member that is still to come.
    pub fn next(&mut self) -> (low: Option<u16>)
        requires
            old(self).wf(),
        ensures
            final(self).wf(),
            final(self).store == old(self).store,
            match low {
                Some(low) => {
                    &&& old(self).left(low as int)
                    &&& forall|x: int| #[trigger] old(self).left(x) ==> x >= low
                    &&& forall|x: int|
                        #[trigger] final(self).left(x) == (old(self).left(x) && x != low)
                },
                None => {
                    &&& forall|x: int| !#[trigger] old(self).left(x)
                    &&& forall|x: int| !#[trigger] final(self).left(x)
                },
            },
    {
        match self.store {
            Store::Array(list) => {
                if self.at < list.len() {
                    let low: u16 = list[self.at];
                    proof {
                        assert(list@[self.at as int] == low);
                    }
                    self.at = self.at + 1;
                    return Some(low);
                }
                None
            },
            Store::Runs(runs) => {
                while self.at < runs.len()
                    invariant
                        self.wf(),
                        self.store == old(self).store,
                        self.store == Store::Runs(*runs),
                        forall|x: int| #[trigger] self.left(x) == old(self).left(x),
                    decreases runs.len() - self.at,
                {
                    let run = runs[self.at];
                    let ghost prior = *self;
                    let span: u32 = {
                        assert(runs@[self.at as int].start <= runs@[self.at as int].last);
                        run.last as u32 - run.start as u32
                    };
                    if self.offset <= span {
                        let low: u32 = run.start as u32 + self.offset;
                        self.offset = self.offset + 1;
                        proof {
                            assert forall|x: int| #[trigger] prior.left(x) implies x >= low by {
                                lemma_tail_past(runs@, prior.at as int, x);
                            }
                            assert forall|x: int|
                                #[trigger] self.left(x) == (prior.left(x) && x != low) by {
                                lemma_tail_past(runs@, prior.at as int, x);
                            }
                            assert(prior.left(low as int));
                            assert(old(self).left(low as int));
                            assert forall|x: int| #[trigger] old(self).left(x) implies x >= low by {
                                assert(prior.left(x));
                            }
                        }
                        return Some(low as u16);
                    }
                    self.at = self.at + 1;
                    self.offset = 0;
                    proof {
                        assert forall|x: int| #[trigger] self.left(x) == old(self).left(x) by {
                            assert(prior.left(x) == old(self).left(x));
                            if in_tail(runs@, prior.at + 1, x) {
                                let k = choose|k: int|
                                    prior.at + 1 <= k < runs@.len() && (#[trigger] runs@[k]).start
                                        <= x <= runs@[k].last;
                                if k > prior.at + 1 {
                                    assert(in_tail(runs@, prior.at + 2, x));
                                }
                            }
                            if in_tail(runs@, prior.at + 2, x) {
                                let k = choose|k: int|
                                    prior.at + 2 <= k < runs@.len() && (#[trigger] runs@[k]).start
                                        <= x <= runs@[k].last;
                                assert(in_tail(runs@, prior.at + 1, x));
                            }
                        }
                    }
                }
                proof {
                    assert forall|x: int| !#[trigger] old(self).left(x) by {
                        assert(self.left(x) == old(self).left(x));
                    }
                }
                None
            },
            Store::Bits(words) => {
                if !self.primed {
                    self.word = words.bits[0];
                    self.word_index = 0;
                    self.primed = true;
                    proof {
                        assert forall|x: int| #[trigger] self.left(x) == old(self).left(x) by {}
                    }
                }
                while self.word_index < 1024
                    invariant
                        self.wf(),
                        self.primed,
                        self.store == old(self).store,
                        self.store == Store::Bits(*words),
                        words.wf(),
                        forall|x: int| #[trigger] self.left(x) == old(self).left(x),
                    decreases 1024 - self.word_index,
                {
                    let ghost prior = *self;
                    if self.word != 0 {
                        proof {
                            lemma_lowest(self.word, 0);
                        }
                        let lowest: u32 = self.word.trailing_zeros();
                        self.word = self.word & (self.word - 1);
                        let low: u32 = self.word_index as u32 * 64 + lowest;
                        proof {
                            assert(low as int / 64 == self.word_index && low as int % 64
                                == lowest);
                            assert forall|x: int| #[trigger] prior.left(x) implies x >= low by {
                                assert(x == 64 * (x / 64) + x % 64);
                                lemma_lowest(prior.word, x % 64);
                            }
                            assert forall|x: int|
                                #[trigger] self.left(x) == (prior.left(x) && x != low) by {
                                assert(x == 64 * (x / 64) + x % 64);
                                lemma_lowest(prior.word, x % 64);
                            }
                            assert(prior.left(low as int));
                            assert(old(self).left(low as int));
                            assert forall|x: int| #[trigger] old(self).left(x) implies x >= low by {
                                assert(prior.left(x));
                            }
                        }
                        return Some(low as u16);
                    }
                    self.word_index = self.word_index + 1;
                    self.word = if self.word_index < 1024 {
                        words.bits[self.word_index]
                    } else {
                        0
                    };
                    proof {
                        assert forall|x: int| #[trigger] self.left(x) == old(self).left(x) by {
                            assert(prior.left(x) == old(self).left(x));
                            if 0 <= x < 65536 {
                                lemma_bit_ops(0, 0, x % 64);
                            }
                        }
                    }
                }
                proof {
                    assert forall|x: int| !#[trigger] old(self).left(x) by {
                        assert(self.left(x) == old(self).left(x));
                    }
                }
                None
            },
        }
    }
}

proof fn lemma_tail_past(runs: Seq<Run>, at: int, x: int)
    requires
        runs_ok(runs),
        0 <= at < runs.len(),
    ensures
        in_tail(runs, at + 1, x) ==> x > runs[at].last,
{
    if in_tail(runs, at + 1, x) {
        let k = choose|k: int|
            at + 1 <= k < runs.len() && (#[trigger] runs[k]).start <= x <= runs[k].last;
        assert(runs[at].last + 1 < runs[k].start);
    }
}

} // verus!
