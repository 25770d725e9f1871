//! A bitmap that picks a representation per chunk of the id space.
//!
//! Visibility is the thing this engine carries through every query: the set of
//! documents one reader is allowed to see. Those sets are wildly different
//! sizes and wildly different shapes, and one representation is wrong for at
//! least one of them.
//!
//! The id space is cut into chunks of 65536, and only the chunks that hold
//! something exist. Within a chunk there are three forms, and the one in use is
//! whichever is smallest: a sorted **array**, two bytes a member; a **word
//! block**, one bit per ordinal and a flat 8 KiB; and a **run list**, a start
//! and an inclusive end each, four bytes a run. The choice is remade after
//! every bulk build and every set operation. A single insert only promotes an
//! array that has outgrown the words, and a remove changes no form, so the same
//! set has more than one spelling here and equality compares members.
//!
//! [`Bitmap::write_to`] and [`Bitmap::read`] are the portable Roaring
//! serialisation format. Reading is checked rather than trusted: a bitmap that
//! is wrong is an error and never a set.
use crate::error::Result;
use crate::DocId;
use chunks::{
    chunks_contain, chunks_copy, chunks_difference, chunks_hold, chunks_insert, chunks_intersect,
    chunks_len, chunks_max, chunks_ok, chunks_remove, chunks_union, form_at, form_with, forms,
    lemma_chunk_member, lemma_form_at, lemma_ordinals_len, ordinals, settled, split, Chunk, Iter,
};
use format::{chunk_set, decoded, decoded_forms, encoded, keys_of, lemma_chunk_sets};
use list::in_list;
use read::chunks_read;
use store::{cheapest, lemma_same_members, members, stretches, Held, Store};
use vstd::prelude::*;
use write::{chunks_size, chunks_write};

pub mod chunks;
pub mod format;
pub mod layout;
pub mod list;
pub mod read;
pub mod round_trip;
pub mod runs;
pub mod said;
pub mod store;
pub mod words;
pub mod write;

verus! {

/// A set of document ordinals.
#[derive(Debug)]
pub struct Bitmap {
    chunks: Vec<Chunk>,
}

impl View for Bitmap {
    type V = Set<u32>;

    closed spec fn view(&self) -> Set<u32> {
        ordinals(self.chunks@)
    }
}

/// The form each chunk of a set costs the least in, in the order of the keys.
pub open spec fn cheapest_forms(s: Set<u32>) -> Seq<Held> {
    Seq::new(
        keys_of(s).len(),
        |i: int|
            cheapest(
                members(chunk_set(s, keys_of(s)[i] as int)),
                stretches(chunk_set(s, keys_of(s)[i] as int)),
            ),
    )
}

/// The form of the chunk of a key, where `forms` are those of the chunks of a set
/// in the order of the keys.
pub open spec fn held_in(s: Set<u32>, forms: Seq<Held>, key: u16) -> Option<Held> {
    if keys_of(s).contains(key) {
        Some(forms[keys_of(s).index_of(key)])
    } else {
        None
    }
}

/// What the members of the first `n` chunks of a set cost in the given forms.
pub open spec fn payload(s: Set<u32>, held: Seq<Held>, n: int) -> nat
    decreases n,
{
    if n <= 0 {
        0
    } else {
        let g = chunk_set(s, keys_of(s)[n - 1] as int);
        payload(s, held, n - 1) + match held[n - 1] {
            Held::Array => 2 * members(g),
            Held::Bits => 8196,
            Held::Runs => 4 * stretches(g),
        }
    }
}

/// What a set costs: an entry of the chunk list for each chunk, and its members in
/// the form that costs the least.
pub open spec fn footprint(s: Set<u32>) -> nat {
    keys_of(s).len() * vstd::layout::size_of::<Chunk>() + payload(
        s,
        cheapest_forms(s),
        keys_of(s).len() as int,
    )
}

/// Whether `absent` is the smallest ordinal a set does not hold, or the largest
/// there is where the set holds every one below it.
pub open spec fn first_gap(s: Set<u32>, absent: u32) -> bool {
    &&& forall|d: u32| d < absent ==> #[trigger] s.contains(d)
    &&& absent < u32::MAX ==> !s.contains(absent)
}

/// A set has one first gap.
pub proof fn lemma_first_gap(s: Set<u32>, a: u32, b: u32)
    requires
        first_gap(s, a),
        first_gap(s, b),
    ensures
        a == b,
{
    if a < b {
        assert(s.contains(a));
    } else if b < a {
        assert(s.contains(b));
    }
}

/// A set of ordinals below `n` has at most `n` of them.
pub proof fn lemma_below(s: Set<u32>, n: u32)
    requires
        forall|d: u32| #[trigger] s.contains(d) ==> d < n,
    ensures
        s.finite(),
        s.len() <= n,
{
    let f = |d: int| 0 <= d < 0x1_0000_0000 && s.contains(d as u32);
    crate::count::lemma_count_set(f, n as int);
    assert(crate::count::below(f, n as int) =~= s);
    crate::count::lemma_count_bound(f, 0, n as int);
}

/// The ordinals ascend.
pub open spec fn rising(s: Seq<u32>) -> bool {
    forall|i: int, j: int| 0 <= i < j < s.len() ==> s[i] < s[j]
}

/// The standard library's `slice::sort_unstable`: the same elements, in
/// ascending order.
#[verifier::external_body]
fn sort_unstable(list: &mut Vec<u32>)
    ensures
        final(list)@.to_multiset() == old(list)@.to_multiset(),
        forall|i: int, j: int| 0 <= i <= j < final(list)@.len() ==> final(list)@[i] <= final(list)@[j],
{
    list.sort_unstable();
}

/// Two chunk lists hold the same exactly if their sets are the same.
proof fn lemma_ordinals_agree(a: Seq<Chunk>, b: Seq<Chunk>)
    requires
        forall|d: int|
            0 <= d < 0x1_0000_0000 ==> (#[trigger] chunks_hold(a, d) == chunks_hold(b, d)),
    ensures
        ordinals(a) == ordinals(b),
{
    assert(ordinals(a) =~= ordinals(b)) by {
        assert forall|d: u32| ordinals(a).contains(d) == ordinals(b).contains(d) by {
            assert(chunks_hold(a, d as int) == chunks_hold(b, d as int));
        }
    }
}

impl Bitmap {
    #[verifier::type_invariant]
    closed spec fn wf(&self) -> bool {
        chunks_ok(self.chunks@)
    }

    /// The form each chunk is held in, in the order of the keys.
    pub closed spec fn forms(&self) -> Seq<Held> {
        forms(self.chunks@)
    }

    /// The form the chunk of a key is held in, or nothing if it holds nothing.
    pub open spec fn held_at(&self, key: u16) -> Option<Held> {
        held_in(self@, self.forms(), key)
    }

    /// Returns an empty bitmap.
    pub fn new() -> (map: Self)
        ensures
            map@ == Set::<u32>::empty(),
    {
        let map = Bitmap { chunks: Vec::new() };
        assert(map@ =~= Set::<u32>::empty());
        map
    }

    /// Returns an empty bitmap ready to hold ordinals below `capacity` without
    /// growing its chunk list again.
    ///
    /// It reserves chunk slots rather than members, because how much a member
    /// costs is not known until it is known which chunk it lands in.
    pub fn with_capacity(capacity: usize) -> (map: Self)
        ensures
            map@ == Set::<u32>::empty(),
    {
        let slots: usize = capacity / 65536 + if capacity % 65536 == 0 {
            0
        } else {
            1
        };
        let map = Bitmap { chunks: Vec::with_capacity(slots) };
        assert(map@ =~= Set::<u32>::empty());
        map
    }

    /// Builds a bitmap from ordinals.
    ///
    /// This is the fast path off disk, where the posting list decoder has
    /// already produced them in order. Input that is not ascending is accepted
    /// and normalised at the cost of a sort.
    pub fn from_sorted(ordinals: &[DocId]) -> (map: Self)
        ensures
            map@ == ordinals@.to_set(),
            map.forms() == cheapest_forms(map@),
    {
        let mut owned: Vec<u32> = vstd::slice::slice_to_vec(ordinals);
        let mut sorted: bool = true;
        let mut i: usize = 1;
        while i < owned.len()
            invariant
                1 <= i,
                owned@ == ordinals@,
                sorted ==> forall|a: int, b: int|
                    0 <= a <= b < i && b < owned@.len() ==> owned@[a] <= owned@[b],
            decreases owned.len() - i,
        {
            if owned[i] < owned[i - 1] {
                sorted = false;
            }
            i = i + 1;
        }
        if !sorted {
            sort_unstable(&mut owned);
        }
        proof {
            ordinals@.to_multiset_ensures();
            owned@.to_multiset_ensures();
            assert forall|x: u32| owned@.contains(x) == ordinals@.contains(x) by {
                assert(owned@.to_multiset().contains(x) == ordinals@.to_multiset().contains(x));
            }
        }
        let chunks = chunks_from(&owned);
        let map = Bitmap { chunks };
        proof {
            assert(map@ =~= ordinals@.to_set()) by {
                assert forall|d: u32| map@.contains(d) == ordinals@.contains(d) by {
                    assert(chunks_hold(map.chunks@, d as int) == in_ordinals(
                        owned@,
                        d as int,
                    ));
                }
            }
            lemma_settled_forms(map.chunks@);
        }
        map
    }

    /// Adds an ordinal and reports whether it was not already there.
    ///
    /// The choice of form is not remade, beyond promoting an array that has
    /// outgrown the words.
    pub fn insert(&mut self, ordinal: DocId) -> (added: bool)
        ensures
            final(self)@ == old(self)@.insert(ordinal),
            added == !old(self)@.contains(ordinal),
            forall|key: u16|
                key != ordinal as int / 65536 ==> #[trigger] final(self).held_at(key) == old(
                    self,
                ).held_at(key),
            ({
                let key = (ordinal / 65536) as u16;
                let g = chunk_set(final(self)@, key as int);
                final(self).held_at(key) == Some(
                    form_with(old(self).held_at(key), added, members(g), stretches(g)),
                )
            }),
    {
        proof {
            use_type_invariant(&*self);
        }
        let mut chunks: Vec<Chunk> = Vec::new();
        core::mem::swap(&mut self.chunks, &mut chunks);
        let ghost before = chunks@;
        let added = chunks_insert(&mut chunks, ordinal);
        self.chunks = chunks;
        proof {
            assert(self@ =~= old(self)@.insert(ordinal)) by {
                assert forall|d: u32| self@.contains(d) == (old(self)@.contains(d) || d
                    == ordinal) by {
                    assert(chunks_hold(self.chunks@, d as int) == (chunks_hold(before, d as int)
                        || d == ordinal));
                }
            }
            lemma_held_in(before);
            lemma_held_in(self.chunks@);
            let key = ordinal as int / 65536;
            let i = choose|i: int|
                0 <= i < self.chunks@.len() && (#[trigger] self.chunks@[i]).key == key
                    && self.chunks@[i].store.held() == form_with(
                    form_at(before, key),
                    added,
                    members(self.chunks@[i].store.set()),
                    stretches(self.chunks@[i].store.set()),
                );
            lemma_form_at(self.chunks@, i);
            lemma_chunk_set(self.chunks@, i);
            assert(form_at(self.chunks@, key) == self.held_at(key as u16));
            assert(form_at(before, key) == old(self).held_at(key as u16));
            assert forall|key: u16| key != ordinal as int / 65536 implies #[trigger] self.held_at(
                key,
            ) == old(self).held_at(key) by {
                assert(form_at(self.chunks@, key as int) == form_at(before, key as int));
            }
        }
        added
    }

    /// Removes an ordinal and reports whether it was there.
    ///
    /// The choice of form is not remade: what is left of a chunk is held as it was.
    pub fn remove(&mut self, ordinal: DocId) -> (removed: bool)
        ensures
            final(self)@ == old(self)@.remove(ordinal),
            removed == old(self)@.contains(ordinal),
            forall|key: u16| #[trigger]
                final(self).held_at(key) is Some ==> final(self).held_at(key) == old(self).held_at(
                    key,
                ),
    {
        proof {
            use_type_invariant(&*self);
        }
        let mut chunks: Vec<Chunk> = Vec::new();
        core::mem::swap(&mut self.chunks, &mut chunks);
        let ghost before = chunks@;
        let removed = chunks_remove(&mut chunks, ordinal);
        self.chunks = chunks;
        proof {
            assert(self@ =~= old(self)@.remove(ordinal)) by {
                assert forall|d: u32| self@.contains(d) == (old(self)@.contains(d) && d
                    != ordinal) by {
                    assert(chunks_hold(self.chunks@, d as int) == (chunks_hold(before, d as int)
                        && d != ordinal));
                }
            }
            lemma_held_in(before);
            lemma_held_in(self.chunks@);
            assert forall|key: u16| #[trigger] self.held_at(key) is Some implies self.held_at(key)
                == old(self).held_at(key) by {
                assert(form_at(self.chunks@, key as int) == self.held_at(key));
                assert(form_at(before, key as int) == old(self).held_at(key));
            }
        }
        removed
    }

    /// Reports whether the ordinal is in the set.
    pub fn contains(&self, ordinal: DocId) -> (held: bool)
        ensures
            held == self@.contains(ordinal),
    {
        proof {
            use_type_invariant(self);
        }
        chunks_contain(&self.chunks, ordinal)
    }

    /// Returns how many ordinals are in the set.
    pub fn len(&self) -> (n: usize)
        requires
            self@.len() <= usize::MAX,
        ensures
            n == self@.len(),
            self@.finite(),
    {
        proof {
            use_type_invariant(self);
            lemma_ordinals_len(self.chunks@);
        }
        self.count() as usize
    }

    /// Returns how many ordinals are in the set, in the wider type every count
    /// fits in.
    pub fn count(&self) -> (n: u64)
        ensures
            n == self@.len(),
            self@.finite(),
            n <= 0x1_0000_0000,
    {
        proof {
            use_type_invariant(self);
            lemma_ordinals_len(self.chunks@);
        }
        chunks_len(&self.chunks)
    }

    /// Reports whether the set is empty.
    pub fn is_empty(&self) -> (empty: bool)
        ensures
            empty == (self@ == Set::<u32>::empty()),
    {
        proof {
            use_type_invariant(self);
            if self.chunks@.len() == 0 {
                assert(self@ =~= Set::<u32>::empty());
            } else {
                let d = lemma_chunk_member(self.chunks@, 0);
                assert(self@.contains(d as u32));
            }
        }
        self.chunks.len() == 0
    }

    /// The largest ordinal in the set, or nothing if it holds none.
    pub fn max(&self) -> (largest: Option<DocId>)
        ensures
            match largest {
                Some(m) => self@.contains(m) && forall|d: u32|
                    #[trigger] self@.contains(d) ==> d <= m,
                None => self@ == Set::<u32>::empty(),
            },
    {
        proof {
            use_type_invariant(self);
        }
        let largest = chunks_max(&self.chunks);
        proof {
            if largest is Some {
                assert forall|d: u32| #[trigger] self@.contains(d) implies d <= largest->0 by {
                    assert(chunks_hold(self.chunks@, d as int));
                }
            } else {
                assert(self@ =~= Set::<u32>::empty());
            }
        }
        largest
    }

    /// The smallest ordinal the set does not hold, or the largest there is if
    /// the set holds every one.
    ///
    /// Zero for a set that does not start at zero, which is also the answer for
    /// the empty set. This is how a set of deletions says where the documents
    /// that are still worth reading begin. The walk stops at the first gap.
    pub fn first_absent(&self) -> (absent: DocId)
        ensures
            first_gap(self@, absent),
    {
        proof {
            use_type_invariant(self);
        }
        let mut iter = Iter::over(&self.chunks);
        let mut next: u32 = 0;
        let mut going: bool = true;
        proof {
            assert forall|d: int| 0 <= d < 0x1_0000_0000 implies #[trigger] iter.left(d)
                == self@.contains(d as u32) by {}
        }
        while going
            invariant
                iter.wf(),
                going ==> forall|d: int|
                    0 <= d < 0x1_0000_0000 ==> (#[trigger] iter.left(d) == (self@.contains(d as u32)
                        && d >= next)),
                forall|d: u32| d < next ==> self@.contains(d),
                !going && next < u32::MAX ==> !self@.contains(next),
            decreases (if going {
                1int
            } else {
                0int
            }), u32::MAX - next,
        {
            let ghost prior = iter;
            match iter.next() {
                Some(ordinal) => {
                    proof {
                        assert(prior.left(ordinal as int));
                        if self@.contains(next) {
                            assert(prior.left(next as int));
                        }
                    }
                    if ordinal != next || next == u32::MAX {
                        going = false;
                    } else {
                        next = next + 1;
                        proof {
                            assert forall|d: int| 0 <= d < 0x1_0000_0000 implies (
                            #[trigger] iter.left(d) == (self@.contains(d as u32) && d >= next)) by {
                                assert(iter.left(d) == (prior.left(d) && d != ordinal));
                            }
                        }
                    }
                },
                None => {
                    proof {
                        if self@.contains(next) {
                            assert(prior.left(next as int));
                        }
                    }
                    going = false;
                },
            }
        }
        next
    }

    /// Returns roughly what the set costs in memory, in bytes: the chunk list
    /// and each chunk's payload in the form that costs the least, and not the
    /// capacity a vector may be holding beyond its length, so two sets built
    /// differently and holding the same ordinals report the same figure.
    pub fn memory(&self) -> (bytes: usize)
        ensures
            bytes == if footprint(self@) <= usize::MAX {
                footprint(self@)
            } else {
                usize::MAX as nat
            },
    {
        proof {
            use_type_invariant(self);
            lemma_chunk_sets(self.chunks@);
        }
        let n: usize = self.chunks.len();
        let list: usize = match n.checked_mul(core::mem::size_of::<Chunk>()) {
            Some(list) => list,
            None => usize::MAX,
        };
        let ghost whole = n * vstd::layout::size_of::<Chunk>();
        let mut total: usize = list;
        let mut i: usize = 0;
        while i < n
            invariant
                i <= n,
                n == self.chunks@.len(),
                chunks_ok(self.chunks@),
                keys_of(self@) == Seq::new(self.chunks@.len(), |i: int| self.chunks@[i].key),
                total == if whole + payload(self@, cheapest_forms(self@), i as int) <= usize::MAX {
                    whole + payload(self@, cheapest_forms(self@), i as int)
                } else {
                    usize::MAX as int
                },
            decreases n - i,
        {
            proof {
                lemma_chunk_sets(self.chunks@);
                let f = chunk_set(self@, self.chunks@[i as int].key as int);
                let g = self.chunks@[i as int].store.set();
                assert forall|x: int| 0 <= x < 65536 implies #[trigger] f(x) == g(x) by {
                    assert(chunk_set(ordinals(self.chunks@), self.chunks@[i as int].key as int)(x)
                        == self.chunks@[i as int].store.holds(x));
                }
                lemma_same_members(f, g);
                assert(keys_of(self@)[i as int] == self.chunks@[i as int].key);
            }
            total = total.saturating_add(self.chunks[i].store.memory());
            i = i + 1;
        }
        total
    }

    /// Which form each chunk is held in, in the order of the keys.
    pub fn held_as(&self) -> (out: Vec<Held>)
        ensures
            out@ == self.forms(),
    {
        let mut out: Vec<Held> = Vec::new();
        let mut i: usize = 0;
        while i < self.chunks.len()
            invariant
                i <= self.chunks@.len(),
                out@.len() == i,
                forall|k: int| 0 <= k < i ==> #[trigger] out@[k] == self.chunks@[k].store.held(),
            decreases self.chunks.len() - i,
        {
            out.push(self.chunks[i].store.form());
            i = i + 1;
        }
        assert(out@ =~= self.forms());
        out
    }

    /// The members of one chunk, by its place among the chunks there are.
    pub fn container(&self, at: usize) -> (store: Option<&Store>)
        ensures
            match store {
                Some(store) => {
                    &&& at < self.forms().len()
                    &&& store.wf()
                    &&& store.held() == self.forms()[at as int]
                    &&& forall|low: int|
                        0 <= low < 65536 ==> (#[trigger] store.holds(low) == chunk_set(
                            self@,
                            keys_of(self@)[at as int] as int,
                        )(low))
                },
                None => at >= self.forms().len(),
            },
            self.forms().len() == keys_of(self@).len(),
    {
        proof {
            use_type_invariant(self);
            lemma_chunk_sets(self.chunks@);
        }
        if at < self.chunks.len() {
            let store = &self.chunks[at].store;
            proof {
                assert forall|low: int| 0 <= low < 65536 implies (#[trigger] store.holds(low)
                    == chunk_set(self@, keys_of(self@)[at as int] as int)(low)) by {
                    assert(chunk_set(ordinals(self.chunks@), self.chunks@[at as int].key as int)(
                        low,
                    ) == self.chunks@[at as int].store.holds(low));
                }
            }
            Some(store)
        } else {
            None
        }
    }

    /// Keeps only the ordinals that are also in `other`.
    ///
    /// This is the operation the query path runs most: candidates from a term,
    /// intersected with what the reader may see.
    pub fn intersect_with(&mut self, other: &Self)
        ensures
            final(self)@ == old(self)@.intersect(other@),
            final(self).forms() == cheapest_forms(final(self)@),
    {
        proof {
            use_type_invariant(&*self);
            use_type_invariant(other);
        }
        let mut chunks: Vec<Chunk> = Vec::new();
        core::mem::swap(&mut self.chunks, &mut chunks);
        let ghost before = chunks@;
        chunks_intersect(&mut chunks, &other.chunks);
        self.chunks = chunks;
        proof {
            assert(self@ =~= old(self)@.intersect(other@)) by {
                assert forall|d: u32| self@.contains(d) == (old(self)@.contains(d)
                    && other@.contains(d)) by {
                    assert(chunks_hold(self.chunks@, d as int) == (chunks_hold(before, d as int)
                        && chunks_hold(other.chunks@, d as int)));
                }
            }
            lemma_settled_forms(self.chunks@);
        }
    }

    /// Adds every ordinal of `other`.
    pub fn union_with(&mut self, other: &Self)
        ensures
            final(self)@ == old(self)@.union(other@),
            final(self).forms() == cheapest_forms(final(self)@),
    {
        proof {
            use_type_invariant(&*self);
            use_type_invariant(other);
        }
        let mut chunks: Vec<Chunk> = Vec::new();
        core::mem::swap(&mut self.chunks, &mut chunks);
        let ghost before = chunks@;
        chunks_union(&mut chunks, &other.chunks);
        self.chunks = chunks;
        proof {
            assert(self@ =~= old(self)@.union(other@)) by {
                assert forall|d: u32| self@.contains(d) == (old(self)@.contains(d)
                    || other@.contains(d)) by {
                    assert(chunks_hold(self.chunks@, d as int) == (chunks_hold(before, d as int)
                        || chunks_hold(other.chunks@, d as int)));
                }
            }
            lemma_settled_forms(self.chunks@);
        }
    }

    /// Removes every ordinal of `other`.
    ///
    /// A deny list is applied with this, which is why it exists as its own
    /// operation rather than as a union of complements: a complement needs a
    /// universe size.
    pub fn difference_with(&mut self, other: &Self)
        ensures
            final(self)@ == old(self)@.difference(other@),
            final(self).forms() == cheapest_forms(final(self)@),
    {
        proof {
            use_type_invariant(&*self);
            use_type_invariant(other);
        }
        let mut chunks: Vec<Chunk> = Vec::new();
        core::mem::swap(&mut self.chunks, &mut chunks);
        let ghost before = chunks@;
        chunks_difference(&mut chunks, &other.chunks);
        self.chunks = chunks;
        proof {
            assert(self@ =~= old(self)@.difference(other@)) by {
                assert forall|d: u32| self@.contains(d) == (old(self)@.contains(d)
                    && !other@.contains(d)) by {
                    assert(chunks_hold(self.chunks@, d as int) == (chunks_hold(before, d as int)
                        && !chunks_hold(other.chunks@, d as int)));
                }
            }
            lemma_settled_forms(self.chunks@);
        }
    }

    /// Iterates the ordinals in ascending order.
    pub fn iter(&self) -> (iter: Iter<'_>)
        ensures
            iter.wf(),
            forall|d: u32| #[trigger] iter.left(d as int) == self@.contains(d),
    {
        proof {
            use_type_invariant(self);
        }
        Iter::over(&self.chunks)
    }

    /// Collects the ordinals into a vector, in ascending order.
    pub fn to_vec(&self) -> (out: Vec<DocId>)
        ensures
            rising(out@),
            out@.to_set() == self@,
    {
        let mut iter = self.iter();
        let mut out: Vec<u32> = Vec::new();
        let mut going: bool = true;
        while going
            invariant
                iter.wf(),
                rising(out@),
                forall|d: u32|
                    self@.contains(d) == (#[trigger] out@.contains(d) || iter.left(d as int)),
                forall|i: int, d: int|
                    0 <= i < out@.len() && 0 <= d && #[trigger] iter.left(d)
                        ==> #[trigger] out@[i] < d,
                !going ==> forall|d: int| !#[trigger] iter.left(d),
            decreases (if going {
                1int
            } else {
                0int
            }), 0x1_0000_0000 - out@.len(),
        {
            let ghost prior = iter;
            let ghost had = out@;
            match iter.next() {
                Some(ordinal) => {
                    out.push(ordinal);
                    proof {
                        assert(rising(out@));
                        lemma_rising_len(out@);
                        assert forall|d: u32| self@.contains(d) == (#[trigger] out@.contains(d)
                            || iter.left(d as int)) by {
                            assert(self@.contains(d) == (had.contains(d) || prior.left(d as int)));
                            assert(iter.left(d as int) == (prior.left(d as int) && d != ordinal));
                            if had.contains(d) {
                                let k = had.index_of(d);
                                assert(out@[k] == d);
                            }
                            if d == ordinal {
                                assert(out@[had.len() as int] == d);
                            }
                            if out@.contains(d) && d != ordinal {
                                let k = out@.index_of(d);
                                assert(had[k] == d);
                            }
                        }
                    }
                },
                None => {
                    going = false;
                },
            }
        }
        assert(out@.to_set() =~= self@);
        out
    }

    /// How many bytes [`Bitmap::write_to`] appends.
    ///
    /// This is what the set costs written down, which is not what it costs in
    /// memory. [`Bitmap::memory`] is the other number.
    pub fn size(&self) -> (bytes: usize)
        ensures
            bytes == encoded(self@).len(),
    {
        proof {
            use_type_invariant(self);
        }
        chunks_size(&self.chunks)
    }

    /// Writes the set in the portable Roaring format.
    pub fn write_to(&self, out: &mut Vec<u8>)
        ensures
            final(out)@ == old(out)@ + encoded(self@),
    {
        proof {
            use_type_invariant(self);
        }
        chunks_write(&self.chunks, out);
    }

    /// Reads a set written in the portable Roaring format.
    ///
    /// Reports [`Error::BadMagic`] if the cookie is not one the format defines,
    /// [`Error::Truncated`] if the bytes end inside anything, [`Error::NotSorted`]
    /// if the keys or the members of a container are not ascending,
    /// [`Error::BadOffset`] if a container is not where the header says, and
    /// [`Error::BadCardinality`] if a container does not hold what the header
    /// said it holds. A container is held as it was written: runs where it is
    /// flagged, and otherwise words or an array by its cardinality.
    pub fn read(bytes: &[u8]) -> (read: Result<Self>)
        ensures
            match decoded(bytes@) {
                Ok(set) => read matches Ok(map) && map@ == set && map.forms() == decoded_forms(
                    bytes@,
                ),
                Err(error) => read matches Err(e) && e == error,
            },
    {
        match chunks_read(bytes) {
            Ok(chunks) => Ok(Bitmap { chunks }),
            Err(error) => Err(error),
        }
    }

    /// Two bitmaps are the same when they hold the same ordinals.
    fn same(&self, other: &Self) -> (same: bool)
        ensures
            same == (self@ == other@),
    {
        proof {
            use_type_invariant(self);
            use_type_invariant(other);
            lemma_chunk_sets(self.chunks@);
            lemma_chunk_sets(other.chunks@);
            assert(keys_of(self@).len() == self.chunks@.len());
            assert(keys_of(other@).len() == other.chunks@.len());
        }
        if self.chunks.len() != other.chunks.len() {
            return false;
        }
        let mut i: usize = 0;
        while i < self.chunks.len()
            invariant
                i <= self.chunks@.len(),
                self.chunks@.len() == other.chunks@.len(),
                chunks_ok(self.chunks@),
                chunks_ok(other.chunks@),
                forall|k: int|
                    0 <= k < i ==> (#[trigger] self.chunks@[k]).key == other.chunks@[k].key && (
                    forall|x: int|
                        0 <= x < 65536 ==> (#[trigger] self.chunks@[k].store.holds(x)
                            == other.chunks@[k].store.holds(x))),
            decreases self.chunks.len() - i,
        {
            let mine = &self.chunks[i];
            let theirs = &other.chunks[i];
            let alike: bool = mine.key == theirs.key && mine.store.same(&theirs.store);
            if !alike {
                proof {
                    if self@ == other@ {
                        lemma_chunk_sets(self.chunks@);
                        lemma_chunk_sets(other.chunks@);
                        assert(keys_of(self@)[i as int] == mine.key);
                        assert(keys_of(other@)[i as int] == theirs.key);
                        let x = choose|x: int|
                            0 <= x < 65536 && #[trigger] mine.store.holds(x)
                                != theirs.store.holds(x);
                        assert(chunk_set(
                            ordinals(self.chunks@),
                            self.chunks@[i as int].key as int,
                        )(x) == self.chunks@[i as int].store.holds(x));
                        assert(chunk_set(
                            ordinals(other.chunks@),
                            other.chunks@[i as int].key as int,
                        )(x) == other.chunks@[i as int].store.holds(x));
                    }
                }
                return false;
            }
            i = i + 1;
        }
        proof {
            assert forall|d: int| 0 <= d < 0x1_0000_0000 implies #[trigger] chunks_hold(
                self.chunks@,
                d,
            ) == chunks_hold(other.chunks@, d) by {
                if chunks_hold(self.chunks@, d) {
                    let k = choose|k: int|
                        0 <= k < self.chunks@.len() && (#[trigger] self.chunks@[k]).key == d / 65536
                            && self.chunks@[k].store.holds(d % 65536);
                    assert(other.chunks@[k].key == d / 65536 && other.chunks@[k].store.holds(
                        d % 65536,
                    ));
                }
                if chunks_hold(other.chunks@, d) {
                    let k = choose|k: int|
                        0 <= k < other.chunks@.len() && (#[trigger] other.chunks@[k]).key == d
                            / 65536 && other.chunks@[k].store.holds(d % 65536);
                    assert(self.chunks@[k].key == d / 65536);
                    assert(self.chunks@[k].store.holds(d % 65536)
                        == other.chunks@[k].store.holds(d % 65536));
                }
            }
            lemma_ordinals_agree(self.chunks@, other.chunks@);
        }
        true
    }
}

impl PartialEq for Bitmap {
    fn eq(&self, other: &Self) -> (same: bool) {
        self.same(other)
    }
}

impl vstd::std_specs::cmp::PartialEqSpecImpl for Bitmap {
    open spec fn obeys_eq_spec() -> bool {
        true
    }

    open spec fn eq_spec(&self, other: &Self) -> bool {
        self@ == other@
    }
}

impl Clone for Bitmap {
    fn clone(&self) -> (map: Self)
        ensures
            map@ == self@,
            map.forms() == self.forms(),
    {
        proof {
            use_type_invariant(self);
        }
        let chunks = chunks_copy(&self.chunks);
        let map = Bitmap { chunks };
        proof {
            lemma_ordinals_agree(map.chunks@, self.chunks@);
        }
        map
    }
}

impl Default for Bitmap {
    fn default() -> (map: Self)
        ensures
            map@ == Set::<u32>::empty(),
    {
        Bitmap::new()
    }
}

proof fn lemma_rising_len(s: Seq<u32>)
    requires
        rising(s),
    ensures
        s.len() <= 0x1_0000_0000,
{
    if s.len() > 0 {
        lemma_rising_floor(s, s.len() - 1);
    }
}

proof fn lemma_rising_floor(s: Seq<u32>, i: int)
    requires
        rising(s),
        0 <= i < s.len(),
    ensures
        s[i] >= i,
    decreases i,
{
    if i > 0 {
        lemma_rising_floor(s, i - 1);
        assert(s[i - 1] < s[i]);
    }
}

/// Chunks held whichever way is smallest are in the cheapest forms of their set.
proof fn lemma_settled_forms(chunks: Seq<Chunk>)
    requires
        chunks_ok(chunks),
        settled(chunks, chunks.len() as int),
    ensures
        forms(chunks) == cheapest_forms(ordinals(chunks)),
{
    lemma_chunk_sets(chunks);
    let s = ordinals(chunks);
    assert forall|i: int| 0 <= i < chunks.len() implies forms(chunks)[i] == cheapest_forms(s)[i] by {
        let f = chunk_set(s, chunks[i].key as int);
        let g = chunks[i].store.set();
        assert forall|x: int| 0 <= x < 65536 implies #[trigger] f(x) == g(x) by {
            assert(chunk_set(ordinals(chunks), chunks[i].key as int)(x) == chunks[i].store.holds(
                x,
            ));
        }
        lemma_same_members(f, g);
        assert(keys_of(s)[i] == chunks[i].key);
    }
    assert(forms(chunks) =~= cheapest_forms(s));
}

/// What a set holds of the key of one of its chunks is what the chunk holds.
proof fn lemma_chunk_set(chunks: Seq<Chunk>, i: int)
    requires
        chunks_ok(chunks),
        0 <= i < chunks.len(),
    ensures
        members(chunk_set(ordinals(chunks), chunks[i].key as int)) == members(
            chunks[i].store.set(),
        ),
        stretches(chunk_set(ordinals(chunks), chunks[i].key as int)) == stretches(
            chunks[i].store.set(),
        ),
{
    lemma_chunk_sets(chunks);
    let f = chunk_set(ordinals(chunks), chunks[i].key as int);
    let g = chunks[i].store.set();
    assert forall|x: int| 0 <= x < 65536 implies #[trigger] f(x) == g(x) by {
        assert(chunk_set(ordinals(chunks), chunks[i].key as int)(x) == chunks[i].store.holds(x));
    }
    lemma_same_members(f, g);
}

/// The form of a key's chunk, found in the list of the forms.
proof fn lemma_held_in(chunks: Seq<Chunk>)
    requires
        chunks_ok(chunks),
    ensures
        forall|key: u16| #[trigger]
            held_in(ordinals(chunks), forms(chunks), key) == form_at(chunks, key as int),
        forall|key: u16| (#[trigger] form_at(chunks, key as int)) == held_in(
            ordinals(chunks),
            forms(chunks),
            key,
        ),
{
    lemma_chunk_sets(chunks);
    let ks = keys_of(ordinals(chunks));
    assert forall|key: u16| #[trigger] held_in(ordinals(chunks), forms(chunks), key) == form_at(
        chunks,
        key as int,
    ) by {
        if ks.contains(key) {
            let i = ks.index_of(key);
            assert(ks[i] == chunks[i].key);
            lemma_form_at(chunks, i);
        } else if exists|i: int| 0 <= i < chunks.len() && (#[trigger] chunks[i]).key == key as int {
            let i = choose|i: int| 0 <= i < chunks.len() && (#[trigger] chunks[i]).key == key as int;
            assert(ks[i] == key);
        }
    }
}

/// Whether the ordinal is one of the list.
spec fn in_ordinals(list: Seq<u32>, d: int) -> bool {
    0 <= d < 0x1_0000_0000 && list.contains(d as u32)
}

/// Builds the chunks of a list in order.
fn chunks_from(sorted: &Vec<u32>) -> (chunks: Vec<Chunk>)
    requires
        forall|i: int, j: int| 0 <= i <= j < sorted@.len() ==> sorted@[i] <= sorted@[j],
    ensures
        chunks_ok(chunks@),
        settled(chunks@, chunks@.len() as int),
        forall|d: int|
            0 <= d < 0x1_0000_0000 ==> (#[trigger] chunks_hold(chunks@, d) == in_ordinals(
                sorted@,
                d,
            )),
{
    let mut chunks: Vec<Chunk> = Vec::new();
    let mut i: usize = 0;
    while i < sorted.len()
        invariant
            i <= sorted@.len(),
            forall|i: int, j: int| 0 <= i <= j < sorted@.len() ==> sorted@[i] <= sorted@[j],
            chunks_ok(chunks@),
            settled(chunks@, chunks@.len() as int),
            i < sorted@.len() && chunks@.len() > 0 ==> chunks@[chunks@.len() - 1].key
                < sorted@[i as int] as int / 65536,
            forall|d: int|
                0 <= d < 0x1_0000_0000 ==> (#[trigger] chunks_hold(chunks@, d) == in_ordinals(
                    sorted@.take(i as int),
                    d,
                )),
        decreases sorted.len() - i,
    {
        let (key, _) = split(sorted[i]);
        let ghost from = i as int;
        let ghost before = chunks@;
        let mut list: Vec<u16> = Vec::new();
        while i < sorted.len() && sorted[i] / 65536 == key as u32
            invariant
                0 <= from <= i <= sorted@.len(),
                i == from ==> i < sorted@.len() && sorted@[i as int] as int / 65536 == key,
                forall|i: int, j: int| 0 <= i <= j < sorted@.len() ==> sorted@[i] <= sorted@[j],
                crate::count::ascending(list@),
                from < i ==> list@.len() > 0 && list@[list@.len() - 1] == sorted@[i - 1] as int
                    % 65536 && sorted@[i - 1] as int / 65536 == key,
                from == i ==> list@.len() == 0,
                forall|x: int|
                    0 <= x < 65536 ==> (#[trigger] in_list(list@, x) == exists|k: int|
                        from <= k < i && #[trigger] sorted@[k] == key * 65536 + x),
                forall|k: int| from <= k < i ==> #[trigger] sorted@[k] as int / 65536 == key,
            decreases sorted.len() - i,
        {
            let ordinal: u32 = sorted[i];
            let low: u16 = (ordinal % 65536) as u16;
            let ghost had = list@;
            if i > 0 {
                assert(sorted@[i - 1] <= sorted@[i as int]);
            }
            let n: usize = list.len();
            proof {
                assert(ordinal == key * 65536 + low);
                if n > 0 {
                    assert(from < i);
                    assert(sorted@[i - 1] == key * 65536 + list@[n - 1]);
                }
            }
            if n == 0 || list[n - 1] < low {
                list.push(low);
            }
            proof {
                assert forall|x: int| 0 <= x < 65536 implies (#[trigger] in_list(list@, x)
                    == exists|k: int| from <= k < i + 1 && #[trigger] sorted@[k] == key * 65536
                    + x) by {
                    assert(in_list(had, x) == exists|k: int|
                        from <= k < i && #[trigger] sorted@[k] == key * 65536 + x);
                    if in_list(had, x) {
                        let j = had.index_of(x as u16);
                        assert(list@[j] == x as u16);
                        let k = choose|k: int|
                            from <= k < i && #[trigger] sorted@[k] == key * 65536 + x;
                        assert(sorted@[k] == key * 65536 + x);
                    }
                    if x == low {
                        assert(sorted@[i as int] == key * 65536 + x);
                        assert(list@[list@.len() - 1] == x as u16);
                    }
                    if in_list(list@, x) && x != low {
                        let j = list@.index_of(x as u16);
                        assert(had[j] == x as u16);
                    }
                    if exists|k: int| from <= k < i + 1 && #[trigger] sorted@[k] == key * 65536
                        + x {
                        let k = choose|k: int|
                            from <= k < i + 1 && #[trigger] sorted@[k] == key * 65536 + x;
                        if k < i {
                            assert(sorted@[k] == key * 65536 + x);
                            assert(in_list(had, x));
                        }
                    }
                }
            }
            i = i + 1;
        }
        let ghost members_list = list@;
        let mut store = Store::Array(list);
        store.shrink();
        proof {
            let x = members_list[0] as int;
            assert(in_list(members_list, x));
            assert(store.holds(x));
            assert(store.set()(x));
            crate::count::lemma_count_some(store.set(), 0, 65536, x);
        }
        chunks.push(Chunk { key, store });
        proof {
            assert forall|a: int, b: int| 0 <= a < b < chunks@.len() implies (
            #[trigger] chunks@[a]).key < (#[trigger] chunks@[b]).key by {
                if b == before.len() && a < before.len() - 1 {
                    assert(before[a].key < before[before.len() - 1].key);
                }
            }
            let chunk = chunks@[before.len() as int];
            assert forall|d: int| 0 <= d < 0x1_0000_0000 implies #[trigger] chunks_hold(chunks@, d)
                == in_ordinals(sorted@.take(i as int), d) by {
                let shorter = sorted@.take(from);
                let longer = sorted@.take(i as int);
                assert(chunks_hold(before, d) == in_ordinals(shorter, d));
                assert(chunk.store.holds(d % 65536) == in_list(members_list, d % 65536));
                if chunks_hold(before, d) {
                    let k = choose|k: int|
                        0 <= k < before.len() && (#[trigger] before[k]).key == d / 65536
                            && before[k].store.holds(d % 65536);
                    assert(chunks@[k].key == d / 65536);
                    let j = shorter.index_of(d as u32);
                    assert(longer[j] == d as u32);
                }
                if chunks_hold(chunks@, d) {
                    let k = choose|k: int|
                        0 <= k < chunks@.len() && (#[trigger] chunks@[k]).key == d / 65536
                            && chunks@[k].store.holds(d % 65536);
                    if k < before.len() {
                        assert(before[k].key == d / 65536);
                    } else {
                        assert(in_list(members_list, d % 65536));
                        let j = choose|j: int|
                            from <= j < i && #[trigger] sorted@[j] == key * 65536 + d % 65536;
                        assert(longer[j] == d as u32);
                    }
                }
                if in_ordinals(longer, d) {
                    let j = longer.index_of(d as u32);
                    if j < from {
                        assert(shorter[j] == d as u32);
                    } else {
                        assert(sorted@[j] as int / 65536 == key);
                        assert(sorted@[j] == key * 65536 + d % 65536);
                        assert(in_list(members_list, d % 65536));
                        assert(chunks@[before.len() as int].key == d / 65536);
                    }
                }
            }
            if i < sorted@.len() {
                assert(sorted@[i - 1] <= sorted@[i as int]);
            }
        }
    }
    proof {
        assert(sorted@.take(i as int) =~= sorted@);
    }
    chunks
}

} // verus!
