//! Every distinct term seen, and the identifier each one was given.
use crate::codec::{get_u64, le_value};
use crate::count::{count, lemma_count_all, lemma_count_one_more, lemma_count_none};
use crate::order::same_bytes;
use vstd::prelude::*;

verus! {

/// An empty slot of the table.
pub const NONE: u32 = 0xffff_ffff;

/// The multiplier of the hash.
pub const MIX: u64 = 0x9e37_79b9_7f4a_7c15;

// ---------------------------------------------------------------------------
// The hash.
// ---------------------------------------------------------------------------

/// One step of the hash: eight bytes folded into the state with a multiply and
/// a shift.
pub open spec fn mixed(state: u64, word: u64) -> u64 {
    let m = (state ^ word).wrapping_mul(MIX);
    m ^ (m >> 29)
}

/// The state after the bytes, eight at a time and the last of them padded with
/// zeroes.
pub open spec fn mixed_all(state: u64, bytes: Seq<u8>) -> u64
    decreases bytes.len(),
{
    if bytes.len() == 0 {
        state
    } else if bytes.len() < 8 {
        mixed(state, le_value(bytes) as u64)
    } else {
        mixed_all(mixed(state, le_value(bytes.take(8)) as u64), bytes.skip(8))
    }
}

/// The hash of a term.
pub open spec fn hash_of(bytes: Seq<u8>) -> u32 {
    let state = mixed_all(0xcbf2_9ce4_8422_2325u64 ^ (bytes.len() as u64), bytes);
    ((state ^ (state >> 32)) % 0x1_0000_0000) as u32
}

fn mix(state: u64, word: u64) -> (next: u64)
    ensures
        next == mixed(state, word),
{
    let m: u64 = (state ^ word).wrapping_mul(MIX);
    m ^ (m >> 29)
}

/// Hashes a term.
///
/// Eight bytes at a time with a multiply and a shift. It is not a hash anybody
/// should use against untrusted keys, and it does not need to be: the keys are
/// words out of documents this process is indexing, and the table is thrown away
/// when the segment is written.
pub fn hash(bytes: &[u8]) -> (hashed: u32)
    ensures
        hashed == hash_of(bytes@),
{
    let mut state: u64 = 0xcbf2_9ce4_8422_2325u64 ^ (bytes.len() as u64);
    let mut rest = bytes;
    let ghost whole = mixed_all(state, bytes@);
    while rest.len() >= 8
        invariant
            mixed_all(state, rest@) == whole,
        decreases rest@.len(),
    {
        match get_u64(rest) {
            Ok((word, next)) => {
                proof {
                    assert(word == le_value(rest@.take(8)) as u64);
                }
                state = mix(state, word);
                rest = next;
            },
            Err(_) => {
                assert(false);
            },
        }
    }
    if rest.len() > 0 {
        let mut word: u64 = 0;
        let mut i: usize = rest.len();
        let ghost mut room: int = 1;
        assert(rest@.skip(rest@.len() as int) =~= Seq::<u8>::empty());
        while i > 0
            invariant
                i <= rest@.len(),
                rest@.len() < 8,
                word == le_value(rest@.skip(i as int)),
                word < room,
                room == crate::codec::le_bound((rest@.len() - i) as nat),
            decreases i,
        {
            i = i - 1;
            proof {
                assert(rest@.skip(i as int)[0] == rest@[i as int]);
                assert(rest@.skip(i as int).skip(1) =~= rest@.skip(i + 1));
                reveal_with_fuel(crate::codec::le_bound, 8);
            }
            word = rest[i] as u64 + 256 * word;
            proof {
                room = 256 * room;
            }
        }
        assert(rest@.skip(0) =~= rest@);
        state = mix(state, word);
    }
    ((state ^ (state >> 32)) % 0x1_0000_0000) as u32
}

// ---------------------------------------------------------------------------
// The table.
// ---------------------------------------------------------------------------

/// The slot `k` steps after slot `h`, going round at the end.
pub open spec fn slot(h: int, k: int, len: int) -> int {
    if h + k < len {
        h + k
    } else {
        h + k - len
    }
}

/// Slots in use, as a predicate.
pub open spec fn taken(table: Seq<u32>) -> spec_fn(int) -> bool {
    |p: int| table[p] != NONE
}

/// Where the probe for a term starts.
pub open spec fn home(term: Seq<u8>, len: int) -> int {
    hash_of(term) as int % len
}

/// The identifier `id` is found by a probe from slot `h`: `k` steps on, past
/// slots that are in use.
pub open spec fn found_at(table: Seq<u32>, h: int, id: int, k: int) -> bool {
    &&& 0 <= k < table.len()
    &&& table[slot(h, k, table.len() as int)] == id
    &&& forall|j: int| 0 <= j < k ==> table[#[trigger] slot(h, j, table.len() as int)] != NONE
}

pub open spec fn reachable(table: Seq<u32>, h: int, id: int) -> bool {
    exists|k: int| #[trigger] found_at(table, h, id, k)
}

/// The table finds every one of the terms, holds nothing else, and has room.
pub open spec fn table_ok(table: Seq<u32>, terms: Seq<Seq<u8>>) -> bool {
    &&& table.len() > 0
    &&& forall|p: int|
        0 <= p < table.len() ==> (#[trigger] table[p] == NONE || table[p] < terms.len())
    &&& forall|id: int|
        0 <= id < terms.len() ==> reachable(
            table,
            home(#[trigger] terms[id], table.len() as int),
            id,
        )
    &&& count(taken(table), 0, table.len() as int) == terms.len()
}

/// A slot not in use can be reached from anywhere.
proof fn lemma_room(table: Seq<u32>, h: int)
    requires
        0 <= h < table.len(),
        count(taken(table), 0, table.len() as int) < table.len(),
    ensures
        exists|k: int|
            0 <= k < table.len() && table[#[trigger] slot(h, k, table.len() as int)] == NONE,
{
    let len = table.len() as int;
    if forall|p: int| 0 <= p < len ==> #[trigger] taken(table)(p) {
        lemma_count_all(taken(table), 0, len);
    }
    let p = choose|p: int| 0 <= p < len && !#[trigger] taken(table)(p);
    let k = if p >= h {
        p - h
    } else {
        p - h + len
    };
    assert(slot(h, k, len) == p);
}

/// Putting an identifier into the slot its probe ends at.
proof fn lemma_put(table: Seq<u32>, terms: Seq<Seq<u8>>, term: Seq<u8>, k: int)
    requires
        table_ok(table, terms),
        terms.len() < NONE,
        0 <= k < table.len(),
        table[slot(home(term, table.len() as int), k, table.len() as int)] == NONE,
        forall|j: int|
            0 <= j < k ==> table[#[trigger] slot(
                home(term, table.len() as int),
                j,
                table.len() as int,
            )] != NONE,
    ensures
        table_ok(
            table.update(
                slot(home(term, table.len() as int), k, table.len() as int),
                terms.len() as u32,
            ),
            terms.push(term),
        ),
{
    let len = table.len() as int;
    let h = home(term, len);
    let p = slot(h, k, len);
    let id = terms.len() as int;
    let after = table.update(p, id as u32);
    let longer = terms.push(term);
    assert(0 <= h < len);
    assert forall|i: int| 0 <= i < longer.len() implies reachable(
        after,
        home(#[trigger] longer[i], len),
        i,
    ) by {
        if i < id {
            assert(longer[i] == terms[i]);
            let hi = home(terms[i], len);
            assert(reachable(table, hi, i));
            let ki = choose|k: int| #[trigger] found_at(table, hi, i, k);
            assert(slot(hi, ki, len) != p);
            assert forall|j: int| 0 <= j < ki implies after[#[trigger] slot(hi, j, len)] != NONE by {
                assert(table[slot(hi, j, len)] != NONE);
            }
            assert(found_at(after, hi, i, ki));
        } else {
            assert forall|j: int| 0 <= j < k implies after[#[trigger] slot(h, j, len)] != NONE by {
                assert(table[slot(h, j, len)] != NONE);
            }
            assert(found_at(after, h, id, k));
        }
    }
    assert forall|i: int| 0 <= i < len && i != p implies #[trigger] taken(table)(i) == taken(
        after,
    )(i) by {}
    lemma_count_one_more(taken(table), taken(after), 0, len, p);
}

/// A probe that ends at an empty slot without meeting the term has shown that
/// the term is not there.
proof fn lemma_absent(table: Seq<u32>, terms: Seq<Seq<u8>>, term: Seq<u8>, k: int)
    requires
        table_ok(table, terms),
        terms.len() <= NONE,
        0 <= k < table.len(),
        table[slot(home(term, table.len() as int), k, table.len() as int)] == NONE,
        forall|j: int|
            0 <= j < k ==> table[#[trigger] slot(
                home(term, table.len() as int),
                j,
                table.len() as int,
            )] != NONE && terms[table[slot(
                home(term, table.len() as int),
                j,
                table.len() as int,
            )] as int] != term,
    ensures
        !terms.contains(term),
{
    let len = table.len() as int;
    let h = home(term, len);
    if terms.contains(term) {
        let id = terms.index_of(term);
        assert(terms[id] == term);
        assert(reachable(table, home(terms[id], len), id));
        let ki = choose|k: int| #[trigger] found_at(table, h, id, k);
        if ki < k {
            assert(table[slot(h, ki, len)] == id);
        } else if ki > k {
            assert(table[slot(h, k, len)] != NONE);
        }
    }
}

/// The distinct terms seen, each with the number it was given.
///
/// This is an open addressed table over one arena of term bytes.
#[derive(Debug)]
pub struct Vocabulary {
    pub arena: Vec<u8>,
    pub spans: Vec<(u32, u32)>,
    pub table: Vec<u32>,
}

impl View for Vocabulary {
    type V = Seq<Seq<u8>>;

    open spec fn view(&self) -> Seq<Seq<u8>> {
        spelled(self.arena@, self.spans@)
    }
}

/// The bytes of each span of an arena.
pub open spec fn spelled(arena: Seq<u8>, spans: Seq<(u32, u32)>) -> Seq<Seq<u8>> {
    Seq::new(
        spans.len(),
        |i: int| arena.subrange(spans[i].0 as int, spans[i].0 + spans[i].1),
    )
}

impl Vocabulary {
    pub open spec fn wf(&self) -> bool {
        &&& forall|i: int|
            0 <= i < self.spans@.len() ==> (#[trigger] self.spans@[i]).0 + self.spans@[i].1
                <= self.arena@.len()
        &&& self.spans@.len() <= NONE
        &&& self@.no_duplicates()
        &&& table_ok(self.table@, self@)
        &&& self.spans@.len() * 4 <= self.table@.len() * 3
        &&& self.table@.len() <= 1024 + 3 * self.spans@.len()
    }

    /// Whether another term of `len` bytes can be numbered: its number, where it
    /// starts and how long it is are 32 bits each.
    pub open spec fn room(&self, len: nat) -> bool {
        &&& self.arena@.len() <= u32::MAX
        &&& len <= u32::MAX
        &&& self.spans@.len() < NONE
        &&& 6 * (self.spans@.len() + 1) + 2048 <= usize::MAX
    }

    pub fn new() -> (vocabulary: Self)
        ensures
            vocabulary.wf(),
            vocabulary@ == Seq::<Seq<u8>>::empty(),
            vocabulary.arena@.len() == 0,
    {
        let table: Vec<u32> = vec![NONE; 1024];
        let vocabulary = Vocabulary { arena: Vec::new(), spans: Vec::new(), table };
        proof {
            assert(vocabulary@ =~= Seq::<Seq<u8>>::empty());
            lemma_count_none(taken(vocabulary.table@), 0, 1024);
        }
        vocabulary
    }

    /// Finds a term: its identifier, or the empty slot it goes in.
    fn seek(&self, term: &[u8]) -> (found: core::result::Result<u32, (usize, Ghost<int>)>)
        requires
            self.wf(),
        ensures
            match found {
                Ok(id) => id < self@.len() && self@[id as int] == term@,
                Err((at, k)) => {
                    let len = self.table@.len() as int;
                    let h = home(term@, len);
                    &&& !self@.contains(term@)
                    &&& 0 <= k@ < len
                    &&& at == slot(h, k@, len)
                    &&& self.table@[at as int] == NONE
                    &&& forall|j: int|
                        0 <= j < k@ ==> self.table@[#[trigger] slot(h, j, len)] != NONE
                            && self@[self.table@[slot(h, j, len)] as int] != term@
                },
            },
    {
        let ghost terms = self@;
        let len: usize = self.table.len();
        let ghost h = home(term@, len as int);
        let mut at: usize = hash(term) as usize % len;
        let ghost mut k: int = 0;
        proof {
            lemma_room(self.table@, h);
        }
        loop
            invariant
                self.wf(),
                terms == self@,
                len == self.table@.len(),
                h == home(term@, len as int),
                0 <= h < len,
                0 <= k < len,
                at == slot(h, k, len as int),
                exists|k: int|
                    0 <= k < len && self.table@[#[trigger] slot(h, k, len as int)] == NONE,
                forall|j: int|
                    0 <= j < k ==> self.table@[#[trigger] slot(h, j, len as int)] != NONE
                        && terms[self.table@[slot(h, j, len as int)] as int] != term@,
            ensures
                0 <= k < len,
                at == slot(h, k, len as int),
                self.table@[at as int] == NONE,
                forall|j: int|
                    0 <= j < k ==> self.table@[#[trigger] slot(h, j, len as int)] != NONE
                        && terms[self.table@[slot(h, j, len as int)] as int] != term@,
            decreases len - k,
        {
            let found: u32 = self.table[at];
            if found == NONE {
                break;
            }
            assert(self.table@[at as int] < terms.len());
            if same_bytes(self.term(found), term) {
                proof {
                    assert(terms[found as int] == term@);
                }
                return Ok(found);
            }
            proof {
                let empty = choose|k: int|
                    0 <= k < len && self.table@[#[trigger] slot(h, k, len as int)] == NONE;
                assert(empty > k) by {
                    if empty < k {
                        assert(self.table@[slot(h, empty, len as int)] != NONE);
                    }
                }
                k = k + 1;
            }
            at = if at + 1 == len {
                0
            } else {
                at + 1
            };
        }
        proof {
            lemma_absent(self.table@, terms, term@, k);
        }
        Err((at, Ghost(k)))
    }

    /// The identifier of a term, or nothing if it has not been seen.
    pub fn number(&self, term: &[u8]) -> (found: Option<u32>)
        requires
            self.wf(),
        ensures
            match found {
                Some(id) => id < self@.len() && self@[id as int] == term@,
                None => !self@.contains(term@),
            },
    {
        match self.seek(term) {
            Ok(id) => Some(id),
            Err(_) => None,
        }
    }

    /// Returns the identifier of a term, giving it one if it is new.
    pub fn intern(&mut self, term: &[u8]) -> (id: u32)
        requires
            old(self).wf(),
            old(self)@.contains(term@) || old(self).room(term@.len()),
        ensures
            final(self).wf(),
            id < final(self)@.len(),
            final(self)@[id as int] == term@,
            if old(self)@.contains(term@) {
                final(self)@ == old(self)@ && final(self).arena@ == old(self).arena@
            } else {
                &&& final(self)@ == old(self)@.push(term@)
                &&& id == old(self)@.len()
                &&& final(self).arena@.len() == old(self).arena@.len() + term@.len()
            },
    {
        let ghost terms = self@;
        let (at, k) = match self.seek(term) {
            Ok(id) => {
                assert(terms[id as int] == term@);
                return id;
            },
            Err(place) => place,
        };
        proof {
            lemma_put(self.table@, terms, term@, k@);
        }
        let id: u32 = self.spans.len() as u32;
        let start: u32 = self.arena.len() as u32;
        let ghost arena = self.arena@;
        let ghost spans = self.spans@;
        self.extend(term);
        self.spans.push((start, term.len() as u32));
        self.table.set(at, id);
        proof {
            assert(self@ =~= terms.push(term@)) by {
                assert(self.arena@.subrange(start as int, start + term@.len()) =~= term@);
                assert forall|i: int| 0 <= i < terms.len() implies self@[i] == terms[i] by {
                    assert(self.spans@[i] == spans[i]);
                    assert(spans[i].0 + spans[i].1 <= arena.len());
                    assert(self.arena@.subrange(spans[i].0 as int, spans[i].0 + spans[i].1)
                        =~= arena.subrange(spans[i].0 as int, spans[i].0 + spans[i].1));
                }
            }
            assert(terms.push(term@).no_duplicates());
        }
        if self.spans.len() as u64 * 4 > self.table.len() as u64 * 3 {
            self.grow();
        }
        id
    }

    fn extend(&mut self, term: &[u8])
        ensures
            final(self).arena@ == old(self).arena@ + term@,
            final(self).spans@ == old(self).spans@,
            final(self).table@ == old(self).table@,
    {
        let mut i: usize = 0;
        while i < term.len()
            invariant
                i <= term@.len(),
                self.arena@ == old(self).arena@ + term@.take(i as int),
                self.spans@ == old(self).spans@,
                self.table@ == old(self).table@,
            decreases term.len() - i,
        {
            self.arena.push(term[i]);
            i = i + 1;
            assert(self.arena@ =~= old(self).arena@ + term@.take(i as int));
        }
        assert(term@.take(i as int) =~= term@);
    }

    /// Doubles the table and reinserts everything.
    fn grow(&mut self)
        requires
            forall|i: int|
                0 <= i < old(self).spans@.len() ==> (#[trigger] old(self).spans@[i]).0
                    + old(self).spans@[i].1 <= old(self).arena@.len(),
            old(self).spans@.len() <= NONE,
            old(self)@.no_duplicates(),
            table_ok(old(self).table@, old(self)@),
            old(self).spans@.len() * 4 > old(self).table@.len() * 3,
            (old(self).spans@.len() - 1) * 4 <= old(self).table@.len() * 3,
            6 * old(self).spans@.len() + 2048 <= usize::MAX,
        ensures
            final(self).wf(),
            final(self)@ == old(self)@,
            final(self).arena@ == old(self).arena@,
    {
        let ghost terms = self@;
        let len: usize = self.table.len() * 2;
        let mut table: Vec<u32> = vec![NONE; len];
        let mut id: usize = 0;
        proof {
            lemma_count_none(taken(table@), 0, len as int);
            assert(terms.take(0) =~= Seq::<Seq<u8>>::empty());
        }
        while id < self.spans.len()
            invariant
                id <= self.spans@.len(),
                *self == *old(self),
                terms == self@,
                terms.len() <= NONE,
                terms.len() < len,
                len == table@.len(),
                forall|i: int|
                    0 <= i < self.spans@.len() ==> (#[trigger] self.spans@[i]).0 + self.spans@[i].1
                        <= self.arena@.len(),
                table_ok(table@, terms.take(id as int)),
            decreases self.spans.len() - id,
        {
            let ghost prefix = terms.take(id as int);
            let ghost term = terms[id as int];
            let ghost h = home(term, len as int);
            let mut at: usize = hash(self.term(id as u32)) as usize % len;
            let ghost mut k: int = 0;
            proof {
                lemma_room(table@, h);
            }
            while table[at] != NONE
                invariant
                    len == table@.len(),
                    0 <= h < len,
                    0 <= k < len,
                    at == slot(h, k, len as int),
                    exists|k: int|
                        0 <= k < len && table@[#[trigger] slot(h, k, len as int)] == NONE,
                    forall|j: int|
                        0 <= j < k ==> table@[#[trigger] slot(h, j, len as int)] != NONE,
                decreases len - k,
            {
                proof {
                    let empty = choose|k: int|
                        0 <= k < len && table@[#[trigger] slot(h, k, len as int)] == NONE;
                    assert(empty > k) by {
                        if empty < k {
                            assert(table@[slot(h, empty, len as int)] != NONE);
                        }
                    }
                    k = k + 1;
                }
                at = if at + 1 == len {
                    0
                } else {
                    at + 1
                };
            }
            proof {
                lemma_put(table@, prefix, term, k);
                assert(terms.take(id + 1) =~= prefix.push(term));
            }
            table.set(at, id as u32);
            id = id + 1;
        }
        proof {
            assert(terms.take(id as int) =~= terms);
        }
        self.table = table;
        assert(self@ =~= terms);
    }

    /// The bytes of a term.
    pub fn term(&self, id: u32) -> (bytes: &[u8])
        requires
            id < self@.len(),
            self.spans@[id as int].0 + self.spans@[id as int].1 <= self.arena@.len(),
        ensures
            bytes@ == self@[id as int],
    {
        let (start, len) = self.spans[id as usize];
        assert(start + len <= self.arena.len());
        vstd::slice::slice_subrange(
            self.arena.as_slice(),
            start as usize,
            start as usize + len as usize,
        )
    }

    /// How many distinct terms there are.
    pub fn count(&self) -> (n: u32)
        requires
            self.wf(),
        ensures
            n == self@.len(),
    {
        self.spans.len() as u32
    }
}

} // verus!
