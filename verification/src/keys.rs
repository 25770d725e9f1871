//! The names a caller knows its documents by.
//!
//! A segment can carry the key of each of its documents. The keys are kept and
//! compared rather than hashed, because what a lookup is used for is deleting
//! the document being replaced, and a collision would delete another one.
//!
//! A table is a count, the document each key names, where each key starts, and
//! then the keys end to end in ascending order. The two arrays are fixed width
//! so a binary search can land anywhere without decoding what came before it.
use crate::codec::{
    get_u32, le_bytes, le_value, lemma_le_bytes, lemma_le_unfold, put_u32, short, split_at,
};
use crate::error::{Error, Result};
use crate::order::{
    before, comes_before, lemma_before_irreflexive, lemma_before_total, lemma_before_transitive,
};
use crate::DocId;
use vstd::prelude::*;

verus! {

/// The fixed part in front of the arrays.
pub const HEADER: usize = 8;

/// What one key costs on top of its own bytes.
pub const PER_KEY: usize = 8;

// ---------------------------------------------------------------------------
// What a table is.
// ---------------------------------------------------------------------------

/// The keys ascend.
pub open spec fn ascending(entries: Seq<(Seq<u8>, DocId)>) -> bool {
    forall|i: int, j: int|
        0 <= i < j < entries.len() ==> before((#[trigger] entries[i]).0, (#[trigger] entries[j]).0)
}

/// The keys, end to end.
pub open spec fn blob_of(entries: Seq<(Seq<u8>, DocId)>) -> Seq<u8>
    decreases entries.len(),
{
    if entries.len() == 0 {
        Seq::empty()
    } else {
        blob_of(entries.drop_last()) + entries.last().0
    }
}

/// Where each key starts.
pub open spec fn starts_of(entries: Seq<(Seq<u8>, DocId)>) -> Seq<u32> {
    Seq::new(entries.len(), |i: int| blob_of(entries.take(i)).len() as u32)
}

pub open spec fn docs_of(entries: Seq<(Seq<u8>, DocId)>) -> Seq<u32> {
    Seq::new(entries.len(), |i: int| entries[i].1)
}

/// Four bytes a number.
pub open spec fn words(values: Seq<u32>) -> Seq<u8>
    decreases values.len(),
{
    if values.len() == 0 {
        Seq::empty()
    } else {
        words(values.drop_last()) + le_bytes(values.last() as nat, 4)
    }
}

/// The bytes of a table.
pub open spec fn table_bytes(entries: Seq<(Seq<u8>, DocId)>) -> Seq<u8> {
    le_bytes(entries.len(), 4) + le_bytes(blob_of(entries).len(), 4) + words(docs_of(entries))
        + words(starts_of(entries)) + blob_of(entries)
}

/// The number at place `i` of four byte numbers.
pub open spec fn word_at(bytes: Seq<u8>, i: int) -> nat {
    le_value(bytes.subrange(4 * i, 4 * i + 4))
}

/// The key at a place, where the offsets make sense.
pub open spec fn key_in(count: nat, offsets: Seq<u8>, blob: Seq<u8>, i: int) -> Option<Seq<u8>> {
    if 0 <= i < count {
        let start = word_at(offsets, i);
        let end = if i + 1 == count {
            blob.len()
        } else {
            word_at(offsets, i + 1)
        };
        if start <= end <= blob.len() {
            Some(blob.subrange(start as int, end as int))
        } else {
            None
        }
    } else {
        None
    }
}

pub proof fn lemma_words(values: Seq<u32>, rest: Seq<u8>)
    ensures
        words(values).len() == 4 * values.len(),
        forall|i: int|
            0 <= i < values.len() ==> word_at(words(values) + rest, i) == #[trigger] values[i],
    decreases values.len(),
{
    if values.len() > 0 {
        let n = values.len() - 1;
        let last = le_bytes(values.last() as nat, 4);
        lemma_le_bytes(values.last() as nat, 4);
        lemma_le_unfold(0);
        lemma_words(values.drop_last(), last + rest);
        let bytes = words(values) + rest;
        assert(bytes =~= words(values.drop_last()) + (last + rest));
        assert forall|i: int| 0 <= i < values.len() implies word_at(bytes, i)
            == #[trigger] values[i] by {
            if i < n {
                assert(values.drop_last()[i] == values[i]);
            } else {
                assert(bytes.subrange(4 * i, 4 * i + 4) =~= last);
            }
        }
    }
}

proof fn lemma_blob_take(entries: Seq<(Seq<u8>, DocId)>, i: int)
    requires
        0 <= i < entries.len(),
    ensures
        blob_of(entries.take(i + 1)) == blob_of(entries.take(i)) + entries[i].0,
{
    assert(entries.take(i + 1).drop_last() =~= entries.take(i));
}

/// The keys of a blob are where the starts say.
proof fn lemma_blob_slice(entries: Seq<(Seq<u8>, DocId)>, i: int, n: int)
    requires
        0 <= i < n <= entries.len(),
    ensures
        blob_of(entries.take(i)).len() + entries[i].0.len() <= blob_of(entries.take(n)).len(),
        blob_of(entries.take(n)).subrange(
            blob_of(entries.take(i)).len() as int,
            blob_of(entries.take(i)).len() as int + entries[i].0.len(),
        ) == entries[i].0,
    decreases n,
{
    lemma_blob_take(entries, n - 1);
    let start = blob_of(entries.take(i)).len() as int;
    let end = start + entries[i].0.len();
    if i < n - 1 {
        lemma_blob_slice(entries, i, n - 1);
        assert(blob_of(entries.take(n)).subrange(start, end) =~= blob_of(
            entries.take(n - 1),
        ).subrange(start, end));
    } else {
        assert(blob_of(entries.take(n)).subrange(start, end) =~= entries[i].0);
    }
}

// ---------------------------------------------------------------------------
// Writing.
// ---------------------------------------------------------------------------

/// Builds a key table from keys in ascending order.
///
/// Ascending because the search is a binary search and a merge is a walk. A
/// caller adding documents in the order they arrive has to sort the keys before
/// they get here, and that is where the decision about what a repeated key means
/// belongs as well.
pub struct Writer {
    /// The document each key names, in key order.
    docs: Vec<DocId>,
    /// Where each key starts in the blob.
    offsets: Vec<u32>,
    /// The keys, end to end.
    blob: Vec<u8>,
    entries: Ghost<Seq<(Seq<u8>, DocId)>>,
}

impl View for Writer {
    type V = Seq<(Seq<u8>, DocId)>;

    closed spec fn view(&self) -> Seq<(Seq<u8>, DocId)> {
        self.entries@
    }
}

impl Default for Writer {
    fn default() -> (writer: Self)
        ensures
            writer.wf(),
            writer@ == Seq::<(Seq<u8>, DocId)>::empty(),
    {
        Writer::new()
    }
}

impl Writer {
    pub closed spec fn wf(&self) -> bool {
        &&& ascending(self.entries@)
        &&& self.docs@ == docs_of(self.entries@)
        &&& self.offsets@ == starts_of(self.entries@)
        &&& self.blob@ == blob_of(self.entries@)
        &&& forall|i: int|
            0 <= i < self.entries@.len() ==> (#[trigger] blob_of(self.entries@.take(i))).len()
                <= u32::MAX
    }

    /// A table with nothing in it.
    pub fn new() -> (writer: Self)
        ensures
            writer.wf(),
            writer@ == Seq::<(Seq<u8>, DocId)>::empty(),
    {
        let writer = Writer {
            docs: Vec::new(),
            offsets: Vec::new(),
            blob: Vec::new(),
            entries: Ghost(Seq::empty()),
        };
        proof {
            assert(docs_of(writer.entries@) =~= Seq::<u32>::empty());
            assert(starts_of(writer.entries@) =~= Seq::<u32>::empty());
        }
        writer
    }

    /// Appends a key and the document it names.
    ///
    /// Reports [`Error::NotSorted`] if `key` is not strictly after the key
    /// before it, which covers a repeat of the same key as well as a key that
    /// goes backwards, and [`Error::Overflow`] if the keys have grown past what
    /// a four byte offset can address.
    pub fn push(&mut self, key: &[u8], doc: DocId) -> (pushed: Result<()>)
        requires
            old(self).wf(),
        ensures
            final(self).wf(),
            if old(self)@.len() > 0 && !before(old(self)@.last().0, key@) {
                &&& pushed matches Err(e)
                &&& e == (Error::NotSorted {
                    at: if old(self)@.len() <= u32::MAX {
                        old(self)@.len() as u32
                    } else {
                        u32::MAX
                    },
                })
                &&& final(self)@ == old(self)@
            } else if blob_of(old(self)@).len() > u32::MAX {
                &&& pushed matches Err(e)
                &&& e == Error::Overflow
                &&& final(self)@ == old(self)@
            } else {
                &&& pushed is Ok
                &&& final(self)@ == old(self)@.push((key@, doc))
            },
    {
        let ghost was = self.entries@;
        match self.last() {
            Some(last) => {
                if !comes_before(last, key) {
                    let at: u32 = if self.docs.len() as u64 <= u32::MAX as u64 {
                        self.docs.len() as u32
                    } else {
                        u32::MAX
                    };
                    return Err(Error::NotSorted { at });
                }
            },
            None => {},
        }
        if self.blob.len() as u64 > u32::MAX as u64 {
            return Err(Error::Overflow);
        }
        let offset: u32 = self.blob.len() as u32;
        self.offsets.push(offset);
        self.docs.push(doc);
        let ghost blob = self.blob@;
        let mut i: usize = 0;
        assert(key@.take(0) =~= Seq::<u8>::empty());
        while i < key.len()
            invariant
                i <= key@.len(),
                self.blob@ == blob + key@.take(i as int),
                *self == (Writer { blob: self.blob, ..*self }),
                self.docs@ == docs_of(was).push(doc),
                self.offsets@ == starts_of(was).push(offset),
                self.entries@ == was,
            decreases key.len() - i,
        {
            self.blob.push(key[i]);
            i = i + 1;
            assert(self.blob@ =~= blob + key@.take(i as int));
        }
        assert(key@.take(i as int) =~= key@);
        self.entries = Ghost(was.push((key@, doc)));
        proof {
            let now = self.entries@;
            assert(now.drop_last() =~= was);
            assert(was.take(was.len() as int) =~= was);
            assert forall|i: int| 0 <= i <= was.len() implies #[trigger] now.take(i) == was.take(
                i,
            ) by {
                assert(now.take(i) =~= was.take(i));
            }
            assert(docs_of(now) =~= docs_of(was).push(doc));
            assert(starts_of(now) =~= starts_of(was).push(offset));
            assert forall|i: int| 0 <= i < now.len() implies (#[trigger] blob_of(
                now.take(i),
            )).len() <= u32::MAX by {
                if i < was.len() {
                    assert(blob_of(was.take(i)).len() <= u32::MAX);
                }
            }
            assert forall|i: int, j: int| 0 <= i < j < now.len() implies before(
                (#[trigger] now[i]).0,
                (#[trigger] now[j]).0,
            ) by {
                if j == was.len() && i < was.len() - 1 {
                    lemma_before_transitive(was[i].0, was.last().0, key@);
                }
            }
        }
        Ok(())
    }

    /// The key pushed last, for the order check.
    fn last(&self) -> (last: Option<&[u8]>)
        requires
            self.wf(),
        ensures
            match last {
                Some(key) => self@.len() > 0 && key@ == self@.last().0,
                None => self@.len() == 0,
            },
    {
        let n: usize = self.offsets.len();
        if n == 0 {
            return None;
        }
        let start: usize = self.offsets[n - 1] as usize;
        proof {
            let entries = self.entries@;
            lemma_blob_slice(entries, n - 1, n as int);
            assert(entries.take(n as int) =~= entries);
            assert(blob_of(entries.take(n - 1)).len() <= u32::MAX);
            lemma_blob_take(entries, n - 1);
        }
        Some(vstd::slice::slice_subrange(self.blob.as_slice(), start, self.blob.len()))
    }

    /// How many keys are in.
    pub fn len(&self) -> (n: usize)
        requires
            self.wf(),
        ensures
            n == self@.len(),
    {
        self.docs.len()
    }

    /// Reports whether no key is in.
    pub fn is_empty(&self) -> (empty: bool)
        requires
            self.wf(),
        ensures
            empty == (self@.len() == 0),
    {
        self.docs.len() == 0
    }

    /// What the encoded table will be, in bytes.
    pub fn size(&self) -> (bytes: usize)
        requires
            self.wf(),
            table_bytes(self@).len() <= usize::MAX,
        ensures
            bytes == table_bytes(self@).len(),
    {
        proof {
            lemma_table_len(self@);
        }
        HEADER + self.docs.len() * PER_KEY + self.blob.len()
    }

    /// Writes the table onto the end of `out`, or reports [`Error::Overflow`] if
    /// there are more keys, or more bytes of them, than four bytes can count.
    pub fn write_to(&self, out: &mut Vec<u8>) -> (written: Result<()>)
        requires
            self.wf(),
        ensures
            if self@.len() <= u32::MAX && blob_of(self@).len() <= u32::MAX {
                &&& written is Ok
                &&& final(out)@ == old(out)@ + table_bytes(self@)
            } else {
                &&& written matches Err(e)
                &&& e == Error::Overflow
                &&& final(out)@ == old(out)@
            },
    {
        let ghost start = out@;
        if self.docs.len() as u64 > u32::MAX as u64 || self.blob.len() as u64 > u32::MAX as u64 {
            return Err(Error::Overflow);
        }
        put_u32(out, self.docs.len() as u32);
        put_u32(out, self.blob.len() as u32);
        write_words(&self.docs, out);
        write_words(&self.offsets, out);
        write_bytes(&self.blob, out);
        assert(out@ =~= start + table_bytes(self@));
        Ok(())
    }

    /// The table on its own, under the same conditions as [`Writer::write_to`].
    pub fn finish(&self) -> (table: Result<Vec<u8>>)
        requires
            self.wf(),
        ensures
            if self@.len() <= u32::MAX && blob_of(self@).len() <= u32::MAX {
                table matches Ok(bytes) && bytes@ == table_bytes(self@)
            } else {
                table matches Err(e) && e == Error::Overflow
            },
    {
        let mut out: Vec<u8> = Vec::new();
        match self.write_to(&mut out) {
            Ok(()) => {
                assert(out@ =~= table_bytes(self@));
                Ok(out)
            },
            Err(error) => Err(error),
        }
    }
}

pub(crate) fn write_words(values: &Vec<u32>, out: &mut Vec<u8>)
    ensures
        final(out)@ == old(out)@ + words(values@),
{
    let ghost start = out@;
    let mut i: usize = 0;
    assert(start + words(values@.take(0)) =~= start);
    while i < values.len()
        invariant
            i <= values@.len(),
            out@ == start + words(values@.take(i as int)),
        decreases values.len() - i,
    {
        put_u32(out, values[i]);
        proof {
            let longer = values@.take(i + 1);
            assert(longer.drop_last() =~= values@.take(i as int));
            assert(out@ =~= start + words(longer));
        }
        i = i + 1;
    }
    assert(values@.take(i as int) =~= values@);
}

pub(crate) fn write_bytes(bytes: &Vec<u8>, out: &mut Vec<u8>)
    ensures
        final(out)@ == old(out)@ + bytes@,
{
    let ghost start = out@;
    let mut i: usize = 0;
    assert(start + bytes@.take(0) =~= start);
    while i < bytes.len()
        invariant
            i <= bytes@.len(),
            out@ == start + bytes@.take(i as int),
        decreases bytes.len() - i,
    {
        out.push(bytes[i]);
        i = i + 1;
        assert(out@ =~= start + bytes@.take(i as int));
    }
    assert(bytes@.take(i as int) =~= bytes@);
}

proof fn lemma_table_len(entries: Seq<(Seq<u8>, DocId)>)
    ensures
        table_bytes(entries).len() == 8 + 8 * entries.len() + blob_of(entries).len(),
{
    lemma_le_bytes(entries.len(), 4);
    lemma_le_bytes(blob_of(entries).len(), 4);
    lemma_words(docs_of(entries), Seq::empty());
    lemma_words(starts_of(entries), Seq::empty());
}

// ---------------------------------------------------------------------------
// Reading.
// ---------------------------------------------------------------------------

/// Four bytes a key, as far as a length can say it.
pub open spec fn array_len(count: nat) -> nat {
    if 4 * count <= usize::MAX {
        4 * count
    } else {
        usize::MAX as nat
    }
}

/// What opening a table gives: the count, and the places where the documents,
/// the starts, the keys and what follows begin.
pub open spec fn opened(input: Seq<u8>) -> core::result::Result<(nat, int, int, int), Error> {
    if input.len() < 8 {
        Err(short(8, input.len()))
    } else {
        let count = le_value(input.take(4));
        let bytes = le_value(input.subrange(4, 8));
        let left = (input.len() - 8) as nat;
        if left < array_len(count) {
            Err(short(array_len(count), left))
        } else if left - 4 * count < array_len(count) {
            Err(short(array_len(count), (left - 4 * count) as nat))
        } else if left - 8 * count < bytes {
            Err(short(bytes, (left - 8 * count) as nat))
        } else {
            Ok(
                (
                    count,
                    8 + 4 * count as int,
                    8 + 8 * count as int,
                    8 + 8 * count as int + bytes,
                ),
            )
        }
    }
}

/// Looks a key up in a written table.
#[derive(Debug, Clone, Copy)]
pub struct Reader<'a> {
    /// How many keys there are.
    pub count: usize,
    /// The document each key names, four bytes each, in key order.
    pub docs: &'a [u8],
    /// Where each key starts in the blob, four bytes each.
    pub offsets: &'a [u8],
    /// The keys, end to end.
    pub blob: &'a [u8],
}

impl<'a> Reader<'a> {
    pub open spec fn wf(&self) -> bool {
        &&& self.docs@.len() == 4 * self.count
        &&& self.offsets@.len() == 4 * self.count
    }

    /// The key at a place.
    pub open spec fn key_at(&self, i: int) -> Option<Seq<u8>> {
        key_in(self.count as nat, self.offsets@, self.blob@, i)
    }

    /// The document the key at a place names.
    pub open spec fn doc_at(&self, i: int) -> Option<DocId> {
        if 0 <= i < self.count {
            Some(word_at(self.docs@, i) as u32)
        } else {
            None
        }
    }

    /// Every key makes sense and they ascend.
    pub open spec fn sorted(&self) -> bool {
        &&& forall|i: int| 0 <= i < self.count ==> #[trigger] self.key_at(i) is Some
        &&& forall|i: int, j: int|
            0 <= i < j < self.count ==> before(
                (#[trigger] self.key_at(i))->0,
                (#[trigger] self.key_at(j))->0,
            )
    }

    /// Reads a table out of the front of `input`.
    ///
    /// The header is checked and the arrays are not. Every read below is a
    /// checked slice, so a table whose offsets are nonsense answers wrongly
    /// rather than reading somebody else's memory.
    ///
    /// Reports [`Error::Truncated`] if the input is shorter than the header, or
    /// than the arrays and keys the header says are there.
    pub fn new(input: &'a [u8]) -> (reader: Result<Self>)
        ensures
            match opened(input@) {
                Ok((count, docs, keys, end)) => {
                    &&& reader matches Ok(r)
                    &&& r.wf()
                    &&& r.count == count
                    &&& r.docs@ == input@.subrange(8, docs)
                    &&& r.offsets@ == input@.subrange(docs, keys)
                    &&& r.blob@ == input@.subrange(keys, end)
                },
                Err(error) => reader matches Err(e) && e == error,
            },
    {
        let (head, rest) = match split_at(input, HEADER) {
            Ok(split) => split,
            Err(error) => {
                return Err(error);
            },
        };
        let (count, tail) = match get_u32(head) {
            Ok(read) => read,
            Err(error) => {
                return Err(error);
            },
        };
        let (bytes, _) = match get_u32(tail) {
            Ok(read) => read,
            Err(error) => {
                return Err(error);
            },
        };
        proof {
            assert(head@.take(4) =~= input@.take(4));
            assert(tail@.take(4) =~= input@.subrange(4, 8));
        }
        let count: usize = count as usize;
        let each: usize = match count.checked_mul(4) {
            Some(each) => each,
            None => usize::MAX,
        };
        let (docs, rest) = match split_at(rest, each) {
            Ok(split) => split,
            Err(error) => {
                return Err(error);
            },
        };
        proof {
            assert(4 * count <= usize::MAX) by {
                if 4 * count > usize::MAX {
                    assert(input@.len() >= 8 + usize::MAX);
                    assert(input.len() <= usize::MAX);
                }
            }
            assert(each == 4 * count);
        }
        let (offsets, rest) = match split_at(rest, each) {
            Ok(split) => split,
            Err(error) => {
                return Err(error);
            },
        };
        let (blob, _) = match split_at(rest, bytes as usize) {
            Ok(split) => split,
            Err(error) => {
                return Err(error);
            },
        };
        proof {
            assert(docs@ =~= input@.subrange(8, 8 + 4 * count));
            assert(offsets@ =~= input@.subrange(8 + 4 * count, 8 + 8 * count));
            assert(blob@ =~= input@.subrange(8 + 8 * count, 8 + 8 * count + bytes));
        }
        Ok(Reader { count, docs, offsets, blob })
    }

    /// How many keys the table holds.
    pub fn len(&self) -> (n: usize)
        ensures
            n == self.count,
    {
        self.count
    }

    /// Reports whether the table holds no keys.
    pub fn is_empty(&self) -> (empty: bool)
        ensures
            empty == (self.count == 0),
    {
        self.count == 0
    }

    /// How many bytes the table is, header included.
    pub fn size(&self) -> (bytes: usize)
        requires
            8 + 8 * self.count + self.blob@.len() <= usize::MAX,
        ensures
            bytes == 8 + 8 * self.count + self.blob@.len(),
    {
        HEADER + self.count * PER_KEY + self.blob.len()
    }

    /// The key at a position, in ascending order.
    ///
    /// `None` past the end, and for a table whose offsets do not make sense,
    /// which is the answer that keeps a damaged section from becoming a wrong
    /// document rather than a missing one.
    pub fn key(&self, at: usize) -> (key: Option<&'a [u8]>)
        requires
            self.wf(),
        ensures
            match self.key_at(at as int) {
                Some(bytes) => key matches Some(k) && k@ == bytes,
                None => key is None,
            },
    {
        if at >= self.count {
            return None;
        }
        let start: usize = self.offset(at);
        let end: usize = if at + 1 == self.count {
            self.blob.len()
        } else {
            self.offset(at + 1)
        };
        if start <= end && end <= self.blob.len() {
            Some(vstd::slice::slice_subrange(self.blob, start, end))
        } else {
            None
        }
    }

    /// The document the key at a position names.
    pub fn doc(&self, at: usize) -> (doc: Option<DocId>)
        requires
            self.wf(),
        ensures
            doc == self.doc_at(at as int),
    {
        if at >= self.count {
            return None;
        }
        Some(read_word(self.docs, at))
    }

    /// Where the key at a position starts in the blob.
    fn offset(&self, at: usize) -> (start: usize)
        requires
            self.wf(),
            at < self.count,
        ensures
            start == word_at(self.offsets@, at as int),
    {
        read_word(self.offsets, at) as usize
    }

    /// The document a key names, or `None` if the table does not hold it.
    ///
    /// A binary search, so a table of a million keys is twenty probes.
    pub fn get(&self, key: &[u8]) -> (doc: Option<DocId>)
        requires
            self.wf(),
        ensures
            doc matches Some(found) ==> exists|i: int|
                #[trigger] self.key_at(i) == Some(key@) && self.doc_at(i) == Some(found),
            self.sorted() ==> forall|i: int|
                #[trigger] self.key_at(i) == Some(key@) ==> doc == self.doc_at(i),
            self.sorted() && (forall|i: int| #[trigger] self.key_at(i) != Some(key@)) ==> doc
                is None,
    {
        let mut low: usize = 0;
        let mut high: usize = self.count;
        while low < high
            invariant
                self.wf(),
                low <= high <= self.count,
                self.sorted() ==> forall|i: int|
                    0 <= i < low ==> before((#[trigger] self.key_at(i))->0, key@),
                self.sorted() ==> forall|i: int|
                    high <= i < self.count ==> before(key@, (#[trigger] self.key_at(i))->0),
            decreases high - low,
        {
            let middle: usize = low + (high - low) / 2;
            let held = match self.key(middle) {
                Some(held) => held,
                None => {
                    assert(!self.sorted());
                    return None;
                },
            };
            if comes_before(held, key) {
                proof {
                    if self.sorted() {
                        assert forall|i: int| 0 <= i < middle + 1 implies before(
                            (#[trigger] self.key_at(i))->0,
                            key@,
                        ) by {
                            if i < middle {
                                assert(before(
                                    self.key_at(i)->0,
                                    self.key_at(middle as int)->0,
                                ));
                                lemma_before_transitive(self.key_at(i)->0, held@, key@);
                            }
                        }
                    }
                }
                low = middle + 1;
            } else if comes_before(key, held) {
                proof {
                    if self.sorted() {
                        assert forall|i: int| middle <= i < self.count implies before(
                            key@,
                            (#[trigger] self.key_at(i))->0,
                        ) by {
                            if i > middle {
                                assert(before(
                                    self.key_at(middle as int)->0,
                                    self.key_at(i)->0,
                                ));
                                lemma_before_transitive(key@, held@, self.key_at(i)->0);
                            }
                        }
                    }
                }
                high = middle;
            } else {
                proof {
                    lemma_before_total(held@, key@);
                    assert(self.key_at(middle as int) == Some(key@));
                    lemma_before_irreflexive(key@);
                    if self.sorted() {
                        assert forall|i: int| #[trigger] self.key_at(i) == Some(
                            key@,
                        ) implies i == middle by {
                            if i < middle {
                                assert(before(
                                    self.key_at(i)->0,
                                    self.key_at(middle as int)->0,
                                ));
                            } else if i > middle {
                                assert(before(
                                    self.key_at(middle as int)->0,
                                    self.key_at(i)->0,
                                ));
                            }
                        }
                    }
                }
                return self.doc(middle);
            }
        }
        proof {
            lemma_before_irreflexive(key@);
            if self.sorted() {
                assert forall|i: int| #[trigger] self.key_at(i) != Some(key@) by {}
            }
        }
        None
    }

    /// Every key and the document it names, in ascending order. A key whose
    /// offsets make no sense is left out.
    pub fn entries(&self) -> (out: Vec<(&'a [u8], DocId)>)
        requires
            self.wf(),
        ensures
            listed(out@) == self.entries_before(self.count as int),
    {
        let mut out: Vec<(&'a [u8], DocId)> = Vec::new();
        let mut at: usize = 0;
        assert(listed(out@) =~= self.entries_before(0));
        while at < self.count
            invariant
                self.wf(),
                at <= self.count,
                listed(out@) == self.entries_before(at as int),
            decreases self.count - at,
        {
            let ghost had = out@;
            match self.key(at) {
                Some(key) => {
                    let doc: DocId = read_word(self.docs, at);
                    out.push((key, doc));
                    assert(listed(out@) =~= listed(had).push((key@, doc)));
                },
                None => {},
            }
            at = at + 1;
        }
        out
    }

    /// The first `n` keys that make sense, with their documents.
    pub open spec fn entries_before(&self, n: int) -> Seq<(Seq<u8>, DocId)>
        decreases n,
    {
        if n <= 0 {
            Seq::empty()
        } else {
            match self.key_at(n - 1) {
                Some(key) => self.entries_before(n - 1).push((key, self.doc_at(n - 1)->0)),
                None => self.entries_before(n - 1),
            }
        }
    }
}

/// Keys by their bytes.
pub open spec fn listed(entries: Seq<(&[u8], DocId)>) -> Seq<(Seq<u8>, DocId)> {
    entries.map_values(|entry: (&[u8], DocId)| (entry.0@, entry.1))
}

/// The number at a place of four byte numbers.
pub(crate) fn read_word(bytes: &[u8], at: usize) -> (word: u32)
    requires
        4 * at + 4 <= bytes@.len(),
    ensures
        word == word_at(bytes@, at as int),
{
    assert(4 * at + 4 <= bytes.len());
    let four = vstd::slice::slice_subrange(bytes, at * 4, at * 4 + 4);
    match get_u32(four) {
        Ok((word, _)) => {
            assert(four@.take(4) =~= four@);
            word
        },
        Err(_) => {
            assert(false);
            0
        },
    }
}

/// A table that was written is opened, whatever follows it, and has every key
/// that was pushed with the document it names, in order.
pub proof fn law_written_keys_are_read(entries: Seq<(Seq<u8>, DocId)>, rest: Seq<u8>)
    requires
        ascending(entries),
        entries.len() <= u32::MAX,
        blob_of(entries).len() <= u32::MAX,
        table_bytes(entries).len() + rest.len() <= usize::MAX,
    ensures
        ({
            let input = table_bytes(entries) + rest;
            &&& opened(input) matches Ok((count, docs, keys, end))
            &&& count == entries.len()
            &&& end == table_bytes(entries).len()
            &&& forall|i: int|
                0 <= i < entries.len() ==> key_in(
                    count,
                    input.subrange(docs, keys),
                    input.subrange(keys, end),
                    i,
                ) == Some((#[trigger] entries[i]).0) && word_at(input.subrange(8, docs), i)
                    == entries[i].1
        }),
{
    let n = entries.len();
    let m = n as int;
    let blob = blob_of(entries);
    let docs = words(docs_of(entries));
    let starts = words(starts_of(entries));
    let input = table_bytes(entries) + rest;
    lemma_table_len(entries);
    lemma_words(docs_of(entries), Seq::empty());
    lemma_words(starts_of(entries), Seq::empty());
    lemma_le_unfold(0);
    lemma_le_bytes(n, 4);
    lemma_le_bytes(blob.len(), 4);
    assert(input.take(4) =~= le_bytes(n, 4));
    assert(input.subrange(4, 8) =~= le_bytes(blob.len(), 4));
    assert(input.subrange(8, 8 + 4 * m) =~= docs);
    assert(input.subrange(8 + 4 * m, 8 + 8 * m) =~= starts);
    assert(input.subrange(8 + 8 * m, 8 + 8 * m + blob.len()) =~= blob);
    assert(docs + Seq::<u8>::empty() =~= docs);
    assert(starts + Seq::<u8>::empty() =~= starts);
    assert(entries.take(n as int) =~= entries);
    assert forall|i: int| 0 <= i < entries.len() implies key_in(n, starts, blob, i) == Some(
        (#[trigger] entries[i]).0,
    ) && word_at(docs, i) == entries[i].1 by {
        assert(docs_of(entries)[i] == entries[i].1);
        lemma_blob_slice(entries, i, n as int);
        lemma_blob_take(entries, i);
        assert(starts_of(entries)[i] == blob_of(entries.take(i)).len() as u32);
        if i + 1 < n {
            assert(starts_of(entries)[i + 1] == blob_of(entries.take(i + 1)).len() as u32);
            lemma_blob_slice(entries, i + 1, n as int);
        } else {
            assert(entries.take(i + 1) =~= entries);
        }
    }
}

/// A table with the keys that were pushed is sorted, so that a lookup finds every
/// one of them and nothing else.
pub proof fn law_written_keys_are_sorted(entries: Seq<(Seq<u8>, DocId)>, reader: Reader<'_>)
    requires
        ascending(entries),
        reader.wf(),
        reader.count == entries.len(),
        forall|i: int|
            0 <= i < entries.len() ==> reader.key_at(i) == Some((#[trigger] entries[i]).0),
    ensures
        reader.sorted(),
{
    assert forall|i: int| 0 <= i < reader.count implies #[trigger] reader.key_at(i) is Some by {
        assert(reader.key_at(i) == Some(entries[i].0));
    }
    assert forall|i: int, j: int| 0 <= i < j < reader.count implies before(
        (#[trigger] reader.key_at(i))->0,
        (#[trigger] reader.key_at(j))->0,
    ) by {
        assert(reader.key_at(i) == Some(entries[i].0));
        assert(reader.key_at(j) == Some(entries[j].0));
        assert(before(entries[i].0, entries[j].0));
    }
}

/// A table opens exactly where it is as long as it says: eight bytes, then eight for each
/// key, then the keys themselves.
pub proof fn law_a_table_opens_where_it_is_whole(input: Seq<u8>)
    requires
        input.len() <= usize::MAX,
    ensures
        ({
            let count = le_value(input.subrange(0, 4)) as int;
            let bytes = le_value(input.subrange(4, 8)) as int;
            &&& opened(input) is Ok <==> input.len() >= 8 && 8 + 8 * count + bytes <= input.len()
            &&& opened(input) matches Ok((n, docs, starts, end)) ==> {
                &&& n == count
                &&& docs == 8 + 4 * count
                &&& starts == 8 + 8 * count
                &&& end == 8 + 8 * count + bytes
            }
        }),
{
    if input.len() >= 4 {
        assert(input.take(4) =~= input.subrange(0, 4));
    }
}

proof fn lemma_entries_before(entries: Seq<(Seq<u8>, DocId)>, reader: Reader<'_>, n: int)
    requires
        0 <= n <= entries.len(),
        reader.count == entries.len(),
        forall|i: int|
            0 <= i < entries.len() ==> reader.key_at(i) == Some((#[trigger] entries[i]).0)
                && reader.doc_at(i) == Some(entries[i].1),
    ensures
        reader.entries_before(n) == entries.take(n),
    decreases n,
{
    if n > 0 {
        lemma_entries_before(entries, reader, n - 1);
        assert(reader.key_at(n - 1) == Some(entries[n - 1].0));
        assert(entries.take(n) =~= entries.take(n - 1).push(entries[n - 1]));
    } else {
        assert(entries.take(0) =~= Seq::<(Seq<u8>, DocId)>::empty());
    }
}

/// A table that was written lists the keys that were pushed, all of them, in order, each
/// with its document.
pub proof fn law_written_keys_are_listed(entries: Seq<(Seq<u8>, DocId)>, reader: Reader<'_>)
    requires
        ascending(entries),
        entries.len() <= u32::MAX,
        blob_of(entries).len() <= u32::MAX,
        table_bytes(entries).len() <= usize::MAX,
        opened(table_bytes(entries)) matches Ok((count, docs, keys, end)) && reader.count == count
            && reader.docs@ == table_bytes(entries).subrange(8, docs) && reader.offsets@
            == table_bytes(entries).subrange(docs, keys) && reader.blob@ == table_bytes(
            entries,
        ).subrange(keys, end),
    ensures
        reader.entries_before(reader.count as int) == entries,
{
    law_written_keys_are_read(entries, Seq::empty());
    assert(table_bytes(entries) + Seq::<u8>::empty() =~= table_bytes(entries));
    assert forall|i: int| 0 <= i < entries.len() implies reader.key_at(i) == Some(
        (#[trigger] entries[i]).0,
    ) && reader.doc_at(i) == Some(entries[i].1) by {}
    lemma_entries_before(entries, reader, entries.len() as int);
    assert(entries.take(entries.len() as int) =~= entries);
}

} // verus!
