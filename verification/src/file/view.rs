//! A store as one reader sees it.
use crate::bitmap::format::decoded;
use crate::bitmap::Bitmap;
use crate::error::{Error, Result};
use crate::keys;
use crate::manifest::Segment;
use crate::DocId;
use vstd::prelude::*;
use vstd::view::View as _;

verus! {

/// A committed state of a store, over the bytes of its file.
///
/// It holds the offsets it was made with, so a query already running reads bytes
/// no writer will touch.
#[derive(Debug)]
pub struct View<'a> {
    pub map: &'a [u8],
    pub epoch: u64,
    /// What the layout of the segments is, as one number.
    pub layout: u64,
    pub segments: Vec<Segment>,
    /// Where each segment starts and ends.
    pub ranges: Vec<(usize, usize)>,
    /// Where the deletions of each segment start and end, where it has any.
    pub deletions: Vec<Option<(usize, usize)>>,
    /// The key table of each segment, where it has one.
    pub tables: Vec<Option<&'a [u8]>>,
}

/// The bytes between two places, where there are such.
pub open spec fn between(map: Seq<u8>, start: int, end: int) -> Option<Seq<u8>> {
    if 0 <= start <= end <= map.len() {
        Some(map.subrange(start, end))
    } else {
        None
    }
}

fn slice_of<'a>(map: &'a [u8], range: (usize, usize)) -> (found: Option<&'a [u8]>)
    ensures
        match between(map@, range.0 as int, range.1 as int) {
            Some(bytes) => found matches Some(b) && b@ == bytes,
            None => found is None,
        },
{
    if range.0 <= range.1 && range.1 <= map.len() {
        Some(vstd::slice::slice_subrange(map, range.0, range.1))
    } else {
        None
    }
}

impl<'a> View<'a> {
    /// There is a range, a set and a table for each segment.
    pub open spec fn wf(&self) -> bool {
        &&& self.ranges@.len() == self.segments@.len()
        &&& self.deletions@.len() == self.segments@.len()
        &&& self.tables@.len() == self.segments@.len()
    }

    /// The bytes of a segment.
    pub open spec fn segment_bytes(&self, at: int) -> Option<Seq<u8>> {
        if 0 <= at < self.ranges@.len() {
            between(self.map@, self.ranges@[at].0 as int, self.ranges@[at].1 as int)
        } else {
            None
        }
    }

    /// The bytes of a segment's deletions.
    pub open spec fn tombstone_bytes(&self, at: int) -> Option<Seq<u8>> {
        if 0 <= at < self.deletions@.len() {
            match self.deletions@[at] {
                Some((start, end)) => between(self.map@, start as int, end as int),
                None => None,
            }
        } else {
            None
        }
    }

    /// The same view with the key table of each segment, where it has one.
    pub fn with_tables(self, tables: Vec<Option<&'a [u8]>>) -> (view: Self)
        requires
            self.wf(),
            tables@.len() == self.segments@.len(),
        ensures
            view.wf(),
            view == (View { tables, ..self }),
    {
        View {
            map: self.map,
            epoch: self.epoch,
            layout: self.layout,
            segments: self.segments,
            ranges: self.ranges,
            deletions: self.deletions,
            tables,
        }
    }

    /// How many segments there are.
    pub fn len(&self) -> (n: usize)
        ensures
            n == self.segments@.len(),
    {
        self.segments.len()
    }

    /// The epoch of the commit this is.
    pub fn epoch(&self) -> (epoch: u64)
        ensures
            epoch == self.epoch,
    {
        self.epoch
    }

    /// Whether there are no segments.
    pub fn is_empty(&self) -> (empty: bool)
        ensures
            empty == (self.segments@.len() == 0),
    {
        self.segments.len() == 0
    }

    /// The layout of the segments, which is what a fold compares a batch by.
    pub fn layout(&self) -> (layout: u64)
        ensures
            layout == self.layout,
    {
        self.layout
    }

    /// What the manifest says of the segments.
    pub fn described(&self) -> (segments: &[Segment])
        ensures
            segments@ == self.segments@,
    {
        self.segments.as_slice()
    }

    /// The bytes of a segment, or nothing if there is no such segment.
    pub fn bytes(&self, at: usize) -> (bytes: Option<&'a [u8]>)
        ensures
            match self.segment_bytes(at as int) {
                Some(found) => bytes matches Some(b) && b@ == found,
                None => bytes is None,
            },
    {
        if at >= self.ranges.len() {
            return None;
        }
        slice_of(self.map, self.ranges[at])
    }

    /// The segments that are there, of the first `n`.
    pub open spec fn present(&self, n: int) -> Seq<Seq<u8>>
        decreases n,
    {
        if n <= 0 {
            Seq::empty()
        } else {
            match self.segment_bytes(n - 1) {
                Some(bytes) => self.present(n - 1).push(bytes),
                None => self.present(n - 1),
            }
        }
    }

    /// The bytes of every segment, oldest first.
    pub fn all(&self) -> (all: Vec<&'a [u8]>)
        ensures
            all@.map_values(|bytes: &[u8]| bytes@) == self.present(self.segments@.len() as int),
    {
        let mut all: Vec<&'a [u8]> = Vec::new();
        let mut at: usize = 0;
        assert(all@.map_values(|bytes: &[u8]| bytes@) =~= self.present(0));
        while at < self.segments.len()
            invariant
                at <= self.segments@.len(),
                all@.map_values(|bytes: &[u8]| bytes@) == self.present(at as int),
            decreases self.segments.len() - at,
        {
            let ghost had = all@;
            match self.bytes(at) {
                Some(bytes) => {
                    all.push(bytes);
                    assert(all@.map_values(|bytes: &[u8]| bytes@) =~= had.map_values(
                        |bytes: &[u8]| bytes@,
                    ).push(bytes@));
                },
                None => {},
            }
            at = at + 1;
        }
        all
    }

    /// The bytes of a segment's deletions, or nothing if it has none.
    pub fn tombstones(&self, at: usize) -> (bytes: Option<&'a [u8]>)
        ensures
            match self.tombstone_bytes(at as int) {
                Some(found) => bytes matches Some(b) && b@ == found,
                None => bytes is None,
            },
    {
        if at >= self.deletions.len() {
            return None;
        }
        match self.deletions[at] {
            Some(range) => slice_of(self.map, range),
            None => None,
        }
    }

    /// The deletions of a segment, or nothing if it has none, or what is wrong
    /// with their bytes.
    pub fn deleted(&self, at: usize) -> (deleted: Result<Option<Bitmap>>)
        ensures
            match self.deleted_of(at as int) {
                Ok(Some(set)) => deleted matches Ok(Some(map)) && map@ == set,
                Ok(None) => deleted matches Ok(None),
                Err(error) => deleted matches Err(e) && e == error,
            },
    {
        match self.tombstones(at) {
            Some(bytes) => match Bitmap::read(bytes) {
                Ok(map) => Ok(Some(map)),
                Err(error) => Err(error),
            },
            None => Ok(None),
        }
    }

    pub open spec fn deleted_of(&self, at: int) -> core::result::Result<Option<Set<u32>>, Error> {
        match self.tombstone_bytes(at) {
            Some(bytes) => match decoded(bytes) {
                Ok(set) => Ok(Some(set)),
                Err(error) => Err(error),
            },
            None => Ok(None),
        }
    }

    /// What is wrong with the key tables and the deletions of the first `n`
    /// segments.
    pub open spec fn unreadable(&self, n: int) -> Option<Error>
        decreases n,
    {
        if n <= 0 {
            None
        } else {
            match self.unreadable(n - 1) {
                Some(error) => Some(error),
                None => if self.segment_bytes(n - 1) is None {
                    Some(Error::MissingSection { kind: 0 })
                } else if self.tables@[n - 1] is Some && keys::opened(
                    self.tables@[n - 1]->0@,
                ) is Err {
                    Some(keys::opened(self.tables@[n - 1]->0@)->Err_0)
                } else {
                    match self.deleted_of(n - 1) {
                        Ok(_) => None,
                        Err(error) => Some(error),
                    }
                },
            }
        }
    }

    proof fn lemma_unreadable_stays(&self, n: int, m: int)
        requires
            0 <= n <= m,
            self.unreadable(n) is Some,
        ensures
            self.unreadable(m) == self.unreadable(n),
        decreases m - n,
    {
        if n < m {
            self.lemma_unreadable_stays(n, m - 1);
        }
    }

    /// Opens the keys and the deletions of every segment.
    pub fn lookup(&self) -> (lookup: Result<Lookup<'a>>)
        requires
            self.wf(),
        ensures
            match self.unreadable(self.segments@.len() as int) {
                Some(error) => lookup matches Err(e) && e == error,
                None => lookup matches Ok(l) && l.wf() && l.of(self),
            },
    {
        let mut tables: Vec<Option<keys::Reader<'a>>> = Vec::new();
        let mut deleted: Vec<Option<Bitmap>> = Vec::new();
        let mut at: usize = 0;
        while at < self.segments.len()
            invariant
                at <= self.segments@.len(),
                self.wf(),
                self.unreadable(at as int) is None,
                tables@.len() == at,
                deleted@.len() == at,
                forall|i: int|
                    0 <= i < at ==> table_of(#[trigger] tables@[i], self.tables@[i]),
                forall|i: int|
                    0 <= i < at ==> #[trigger] set_of(deleted@[i]) == self.deleted_of(i)->Ok_0,
            decreases self.segments.len() - at,
        {
            if self.bytes(at).is_none() {
                proof {
                    self.lemma_unreadable_stays(at + 1, self.segments@.len() as int);
                }
                return Err(Error::MissingSection { kind: 0 });
            }
            let table: Option<keys::Reader<'a>> = match self.tables[at] {
                Some(bytes) => match keys::Reader::new(bytes) {
                    Ok(reader) => Some(reader),
                    Err(error) => {
                        proof {
                            self.lemma_unreadable_stays(at + 1, self.segments@.len() as int);
                        }
                        return Err(error);
                    },
                },
                None => None,
            };
            let gone = match self.deleted(at) {
                Ok(gone) => gone,
                Err(error) => {
                    proof {
                        self.lemma_unreadable_stays(at + 1, self.segments@.len() as int);
                    }
                    return Err(error);
                },
            };
            tables.push(table);
            deleted.push(gone);
            at = at + 1;
        }
        Ok(Lookup { keys: tables, deleted })
    }

    /// The segment and the document a key names in the store, or nothing if none
    /// does or the document is deleted.
    pub fn document(&self, key: &[u8]) -> (found: Result<Option<(usize, DocId)>>)
        requires
            self.wf(),
        ensures
            match self.unreadable(self.segments@.len() as int) {
                Some(error) => found matches Err(e) && e == error,
                None => exists|lookup: Lookup<'a>|
                    lookup.wf() && #[trigger] lookup.of(self) && (found matches Ok(f)
                        && lookup.answers(key@, 0, f)),
            },
    {
        match self.lookup() {
            Ok(lookup) => {
                let found = lookup.document(key);
                assert(lookup.of(self));
                Ok(found)
            },
            Err(error) => Err(error),
        }
    }
}

/// The table a reader is over.
pub open spec fn table_of(reader: Option<keys::Reader<'_>>, bytes: Option<&[u8]>) -> bool {
    match bytes {
        Some(input) => {
            &&& keys::opened(input@) matches Ok((count, docs, blob, end))
            &&& reader matches Some(r)
            &&& r.wf()
            &&& r.count == count
            &&& r.docs@ == input@.subrange(8, docs)
            &&& r.offsets@ == input@.subrange(docs, blob)
            &&& r.blob@ == input@.subrange(blob, end)
        },
        None => reader is None,
    }
}

/// What some deletions hold.
pub open spec fn set_of(deleted: Option<Bitmap>) -> Option<Set<u32>> {
    match deleted {
        Some(map) => Some(map@),
        None => None,
    }
}

/// The keys and the deletions of every segment, opened once.
#[derive(Debug)]
pub struct Lookup<'a> {
    pub keys: Vec<Option<keys::Reader<'a>>>,
    pub deleted: Vec<Option<Bitmap>>,
}

impl<'a> Lookup<'a> {
    pub open spec fn wf(&self) -> bool {
        &&& self.keys@.len() == self.deleted@.len()
        &&& forall|at: int|
            0 <= at < self.keys@.len() ==> (#[trigger] self.keys@[at] matches Some(keys)
                ==> keys.wf())
    }

    /// The lookup is of the view's tables and deletions.
    pub open spec fn of(&self, view: &View<'a>) -> bool {
        &&& self.keys@.len() == view.segments@.len()
        &&& self.deleted@.len() == view.segments@.len()
        &&& forall|i: int|
            0 <= i < self.keys@.len() ==> table_of(#[trigger] self.keys@[i], view.tables@[i])
        &&& forall|i: int|
            0 <= i < self.deleted@.len() ==> #[trigger] set_of(self.deleted@[i])
                == view.deleted_of(i)->Ok_0
    }

    /// The tables of the segments from `from` on are sorted.
    pub open spec fn sorted_from(&self, from: int) -> bool {
        forall|at: int|
            from <= at < self.keys@.len() ==> (#[trigger] self.keys@[at] matches Some(keys)
                ==> keys.sorted())
    }

    /// Every table is sorted.
    pub open spec fn sorted(&self) -> bool {
        self.sorted_from(0)
    }

    /// Whether a document of a segment is deleted.
    pub open spec fn gone(&self, at: int, doc: DocId) -> bool {
        self.deleted@[at] matches Some(deleted) && deleted@.contains(doc)
    }

    /// Whether a segment's table has a key for a document.
    pub open spec fn names(&self, at: int, key: Seq<u8>, doc: DocId) -> bool {
        &&& self.keys@[at] matches Some(keys)
        &&& exists|i: int| #[trigger] keys.key_at(i) == Some(key) && keys.doc_at(i) == Some(doc)
    }

    /// The newest segment from `from` on whose table has the key.
    pub open spec fn newest(&self, key: Seq<u8>, from: int, at: int) -> bool {
        &&& from <= at < self.keys@.len()
        &&& exists|doc: DocId| self.names(at, key, doc)
        &&& forall|later: int, doc: DocId|
            at < later < self.keys@.len() ==> !#[trigger] self.names(later, key, doc)
    }

    /// What a lookup answers: a document that its segment has under the key and
    /// that is not deleted. Where the tables from the newest segment that has the key
    /// on are sorted it is the one that segment names, or nothing where that is
    /// deleted: an older table is never read. Where no segment has the key it is
    /// nothing, so long as every table that is read is sorted.
    pub open spec fn answers(
        &self,
        key: Seq<u8>,
        from: int,
        found: Option<(usize, DocId)>,
    ) -> bool {
        &&& found matches Some((at, doc)) ==> from <= at < self.keys@.len() && self.names(
            at as int,
            key,
            doc,
        ) && !self.gone(at as int, doc)
        &&& forall|at: int, doc: DocId|
            #[trigger] self.names(at, key, doc) && self.newest(key, from, at) && self.sorted_from(
                at,
            ) ==> found == if self.gone(at, doc) {
                None
            } else {
                Some((at as usize, doc))
            }
        &&& self.sorted_from(from) && (forall|at: int, doc: DocId|
            from <= at < self.keys@.len() ==> !#[trigger] self.names(at, key, doc)) ==> found
            is None
    }

    /// The key table of a segment, where it has one.
    pub fn keys(&self, at: usize) -> (table: Option<&keys::Reader<'a>>)
        ensures
            if at < self.keys@.len() {
                match self.keys@[at as int] {
                    Some(keys) => table matches Some(t) && *t == keys,
                    None => table is None,
                }
            } else {
                table is None
            },
    {
        if at < self.keys.len() {
            self.keys[at].as_ref()
        } else {
            None
        }
    }

    /// How many segments were opened.
    pub fn len(&self) -> (n: usize)
        ensures
            n == self.keys@.len(),
    {
        self.keys.len()
    }

    /// Whether there are none.
    pub fn is_empty(&self) -> (empty: bool)
        ensures
            empty == (self.keys@.len() == 0),
    {
        self.keys.len() == 0
    }

    /// How many of the first `n` segments have keys.
    pub open spec fn named_before(&self, n: int) -> nat
        decreases n,
    {
        if n <= 0 {
            0
        } else {
            self.named_before(n - 1) + if self.keys@[n - 1] is Some {
                1nat
            } else {
                0nat
            }
        }
    }

    /// How many of the segments have keys.
    pub fn named(&self) -> (n: usize)
        ensures
            n == self.named_before(self.keys@.len() as int),
    {
        let mut n: usize = 0;
        let mut at: usize = 0;
        while at < self.keys.len()
            invariant
                at <= self.keys@.len(),
                n <= at,
                n == self.named_before(at as int),
            decreases self.keys.len() - at,
        {
            if self.keys[at].is_some() {
                n = n + 1;
            }
            at = at + 1;
        }
        n
    }

    /// The segment and the document a key names.
    pub fn document(&self, key: &[u8]) -> (found: Option<(usize, DocId)>)
        requires
            self.wf(),
        ensures
            self.answers(key@, 0, found),
    {
        self.document_from(key, 0)
    }

    /// The same, looking no further back than the segment at `from`.
    ///
    /// The newest segment holding the key decides. A key the newest segment has
    /// for a document that is deleted names nothing, however many older segments
    /// have it too.
    pub fn document_from(&self, key: &[u8], from: usize) -> (found: Option<(usize, DocId)>)
        requires
            self.wf(),
        ensures
            self.answers(key@, from as int, found),
    {
        let n: usize = self.keys.len();
        let mut at: usize = n;
        while at > from
            invariant
                self.wf(),
                n == self.keys@.len(),
                at <= n,
                forall|later: int, doc: DocId|
                    at <= later < n && self.sorted_from(later) ==> !#[trigger] self.names(
                        later,
                        key@,
                        doc,
                    ),
            decreases at,
        {
            at = at - 1;
            match &self.keys[at] {
                None => {},
                Some(keys) => {
                    assert(self.keys@[at as int] is Some);
                    match keys.get(key) {
                        None => {
                            proof {
                                if self.sorted_from(at as int) {
                                    assert(self.keys@[at as int] is Some);
                                    assert forall|doc: DocId| !self.names(
                                        at as int,
                                        key@,
                                        doc,
                                    ) by {
                                        if self.names(at as int, key@, doc) {
                                            let i = choose|i: int|
                                                #[trigger] keys.key_at(i) == Some(key@)
                                                    && keys.doc_at(i) == Some(doc);
                                            assert(keys.key_at(i) == Some(key@));
                                        }
                                    }
                                }
                            }
                        },
                        Some(doc) => {
                            assert(self.names(at as int, key@, doc));
                            let gone: bool = match &self.deleted[at] {
                                Some(deleted) => deleted.contains(doc),
                                None => false,
                            };
                            proof {
                                assert forall|other: int, d: DocId| #[trigger]
                                    self.names(other, key@, d) && self.newest(
                                        key@,
                                        from as int,
                                        other,
                                    ) && self.sorted_from(other) implies other == at && d
                                    == doc by {
                                    if other < at {
                                        assert(self.names(at as int, key@, doc));
                                    }
                                    assert(self.keys@[at as int] is Some);
                                    let i = choose|i: int|
                                        #[trigger] keys.key_at(i) == Some(key@)
                                            && keys.doc_at(i) == Some(d);
                                    assert(keys.key_at(i) == Some(key@));
                                }
                            }
                            return if gone {
                                None
                            } else {
                                Some((at, doc))
                            };
                        },
                    }
                },
            }
        }
        None
    }
}

} // verus!
