//! Writing documents into a store, including the ones that are already in it.
//!
//! A batch is given documents, some of them under a key, and works out as it
//! goes which of the store's documents each key replaces. When it is committed
//! the new segment and the deletion of everything it replaced land in one
//! commit, so a query either sees the old copies or the new ones and never both.
//!
//! A batch is built against a view, which is a snapshot, so what it decides to
//! delete is only true of the store as that view found it. Committing checks
//! that the store is still there and refuses otherwise.
use crate::analysis::{contents, terms_of, Analyzer};
use crate::bitmap::Bitmap;
use crate::error::{Error, Result};
use crate::file::publish::{draft_of, fits, publishes, sets, Published};
use crate::file::view::{set_of, Lookup, View as StoreView};
use crate::file::walk::Walked;
use crate::file::{follows, plus, Log, Store};
use crate::index::{
    self, few, indexes, leaves_room, norms_of, spends, unused, Contents, Field, Used,
};
use crate::manifest::Manifest;
use crate::keymap::{at_key, keys_ascend, KeyMap};
use crate::DocId;
use vstd::prelude::*;

pub mod group;
pub mod laws;
pub mod takes;
pub mod turns;

verus! {

/// What a batch has worked out.
pub struct Ledger {
    /// The terms of each document.
    pub docs: Seq<Seq<Seq<u8>>>,
    /// The fields each document stores.
    pub stores: Seq<Seq<Field>>,
    /// The document each key of the batch names.
    pub mine: Map<Seq<u8>, DocId>,
    /// The documents of each segment of the store that the batch replaces.
    pub replaced: Seq<Option<Set<u32>>>,
    /// The documents of the batch itself that it replaces.
    pub superseded: Set<u32>,
    pub replacements: int,
    pub key_bytes: int,
}

/// What a batch over `n` segments has worked out before it takes a document.
pub open spec fn blank_ledger(n: nat) -> Ledger {
    Ledger {
        docs: Seq::empty(),
        stores: Seq::empty(),
        mine: Map::empty(),
        replaced: Seq::new(n, |i: int| None),
        superseded: Set::empty(),
        replacements: 0,
        key_bytes: 0,
    }
}

/// A document with fields put in.
pub open spec fn grown(ledger: Ledger, terms: Seq<Seq<u8>>, fields: Seq<Field>) -> Ledger {
    Ledger { docs: ledger.docs.push(terms), stores: ledger.stores.push(fields), ..ledger }
}

/// Stored fields by what they hold.
pub open spec fn shown(stores: Seq<Vec<Field>>) -> Seq<Seq<Field>> {
    stores.map_values(|fields: Vec<Field>| fields@)
}

proof fn lemma_shown_any(stores: Seq<Vec<Field>>)
    ensures
        index::stores_any(stores) == exists|d: int|
            0 <= d < shown(stores).len() && (#[trigger] shown(stores)[d]).len() > 0,
{
    if index::stores_any(stores) {
        let d = choose|d: int| 0 <= d < stores.len() && (#[trigger] stores[d])@.len() > 0;
        assert(shown(stores)[d].len() > 0);
    }
    if exists|d: int| 0 <= d < shown(stores).len() && (#[trigger] shown(stores)[d]).len() > 0 {
        let d = choose|d: int|
            0 <= d < shown(stores).len() && (#[trigger] shown(stores)[d]).len() > 0;
        assert(stores[d]@.len() > 0);
    }
}

/// A document under a key, where the store's document `found` has the key.
///
/// What the batch has already written comes first. A key it has seen before has
/// already had whatever the store holds under it marked for deletion.
pub open spec fn replacing_of(
    ledger: Ledger,
    key: Seq<u8>,
    doc: DocId,
    found: Option<(usize, DocId)>,
) -> Ledger {
    let mine = ledger.mine.insert(key, doc);
    if ledger.mine.dom().contains(key) {
        Ledger {
            mine,
            superseded: ledger.superseded.insert(ledger.mine[key]),
            replacements: ledger.replacements + 1,
            ..ledger
        }
    } else {
        let seen = Ledger { mine, key_bytes: plus(ledger.key_bytes, key.len() as int), ..ledger };
        match found {
            Some((at, old_doc)) => Ledger {
                replaced: ledger.replaced.update(
                    at as int,
                    Some(
                        match ledger.replaced[at as int] {
                            Some(set) => set.insert(old_doc),
                            None => Set::empty().insert(old_doc),
                        },
                    ),
                ),
                replacements: ledger.replacements + 1,
                ..seen
            },
            None => seen,
        }
    }
}

/// What a batch has once a document of it is under a key, by what the store
/// answers for the key.
pub open spec fn keyed(
    looks: Lookup<'_>,
    was: Ledger,
    key: Seq<u8>,
    doc: DocId,
    now: Ledger,
) -> bool {
    exists|found: Option<(usize, DocId)>|
        looks.answers(key, 0, found) && now == #[trigger] replacing_of(was, key, doc, found)
}

/// Sets of deletions by their members.
pub open spec fn sets_of(replaced: Seq<Option<Bitmap>>) -> Seq<Option<Set<u32>>> {
    replaced.map_values(|map: Option<Bitmap>| set_of(map))
}

/// A document as a record of the log holds it: what the analyser said of its
/// text rather than the text.
#[derive(Debug)]
pub struct Record {
    pub key: Option<Vec<u8>>,
    pub terms: Vec<Vec<u8>>,
    pub fields: Vec<Field>,
}

/// What a batch has once it has taken a record.
pub open spec fn recorded(was: Ledger, looks: Lookup<'_>, record: Record, now: Ledger) -> bool {
    let added_to = grown(was, contents(record.terms@), record.fields@);
    match record.key {
        None => now == added_to,
        Some(key) => keyed(looks, added_to, key@, was.docs.len() as u32, now),
    }
}

/// Documents being written into a store.
pub struct Batch<'a, 'v> {
    view: &'v StoreView<'a>,
    lookup: Lookup<'a>,
    writer: index::Writer,
    replaced: Vec<Option<Bitmap>>,
    superseded: Bitmap,
    mine: KeyMap<DocId>,
    key_bytes: u64,
    replacements: usize,
}

/// How a batch is left by taking a document of those terms and fields, under a key
/// or under none.
pub open spec fn took(
    was: Batch<'_, '_>,
    now: Batch<'_, '_>,
    key: Option<Seq<u8>>,
    terms: Seq<Seq<u8>>,
    fields: Seq<Field>,
    added: Result<DocId>,
) -> bool {
    let grew = grown(was.ledger(), terms, fields);
    &&& now.wf()
    &&& now.on() == was.on()
    &&& now.looks() == was.looks()
    &&& if was.ledger().docs.len() < u32::MAX {
        &&& added matches Ok(doc) && doc == was.ledger().docs.len()
        &&& spends(was.used(), now.used(), terms)
        &&& match key {
            None => now.ledger() == grew,
            Some(key) => keyed(
                was.looks(),
                grew,
                key,
                was.ledger().docs.len() as u32,
                now.ledger(),
            ),
        }
    } else {
        &&& added matches Err(e) && e == (Error::NotSorted { at: u32::MAX })
        &&& now.ledger() == was.ledger()
        &&& now.used() == was.used()
    }
}

/// A key by its bytes.
pub open spec fn seen(key: Option<&[u8]>) -> Option<Seq<u8>> {
    match key {
        Some(key) => Some(key@),
        None => None,
    }
}

/// How a batch is left by being offered a document: it takes it if there is room,
/// and is left alone if there is not.
pub open spec fn offered(
    was: Batch<'_, '_>,
    now: Batch<'_, '_>,
    key: Option<Seq<u8>>,
    terms: Seq<Seq<u8>>,
    fields: Seq<Field>,
    added: Result<Option<DocId>>,
) -> bool {
    if was.room(terms) {
        match added {
            Ok(Some(doc)) => took(was, now, key, terms, fields, Ok::<DocId, Error>(doc)),
            Ok(None) => false,
            Err(error) => took(was, now, key, terms, fields, Err::<DocId, Error>(error)),
        }
    } else {
        &&& added matches Ok(None)
        &&& now == was
    }
}

/// What a batch adds to a store, worked out and not yet committed.
#[derive(Debug)]
pub struct Prepared {
    /// The segment with how many documents it holds, or nothing if the batch
    /// took none.
    pub segment: Option<(Contents, u32)>,
    /// The whole set of deletions of each segment it changes. The position one
    /// past the last committed segment is the segment the batch adds.
    pub deletions: Vec<(usize, Bitmap)>,
    /// The keys of the batch with the document each names.
    pub keys: Vec<(Vec<u8>, DocId)>,
    /// The epoch the batch was built on.
    pub epoch: u64,
}

/// The deletions a batch commits of the first `n` segments: what each already
/// hides, with what the batch replaces.
pub open spec fn whole_sets(
    view: &StoreView<'_>,
    replaced: Seq<Option<Set<u32>>>,
    n: int,
) -> Seq<(usize, Set<u32>)>
    decreases n,
{
    if n <= 0 {
        Seq::empty()
    } else {
        let had = whole_sets(view, replaced, n - 1);
        match replaced[n - 1] {
            Some(set) => had.push(
                (
                    (n - 1) as usize,
                    match view.deleted_of(n - 1) {
                        Ok(Some(hidden)) => hidden.union(set),
                        _ => set,
                    },
                ),
            ),
            None => had,
        }
    }
}

/// What a batch adds to a store: the index of its documents, and the whole set
/// of deletions of each segment it replaces documents of, with the copies that
/// lost to a later one of its own against the segment it adds.
pub open spec fn prepares(view: &StoreView<'_>, ledger: Ledger, p: Prepared) -> bool {
    let n = view.segments@.len();
    let own = if ledger.docs.len() > 0 && ledger.superseded != Set::<u32>::empty() {
        seq![(n as usize, ledger.superseded)]
    } else {
        Seq::empty()
    };
    &&& p.epoch == view.epoch
    &&& sets(p.deletions@) == whole_sets(view, ledger.replaced, n as int) + own
    &&& match p.segment {
        Some((built, docs)) => {
            &&& ledger.docs.len() > 0
            &&& docs == ledger.docs.len()
            &&& indexes(ledger.docs, built.entries@)
            &&& built.norms@ == norms_of(ledger.docs)
            &&& built.fields is Some == exists|d: int|
                0 <= d < ledger.stores.len() && (#[trigger] ledger.stores[d]).len() > 0
            &&& built.fields matches Some(fields) ==> shown(fields@) == ledger.stores
        },
        None => ledger.docs.len() == 0,
    }
    &&& keys_of(p.keys@) == ledger.mine
    &&& keys_ascend(p.keys@)
}

impl<'a, 'v> Batch<'a, 'v> {
    pub closed spec fn ledger(&self) -> Ledger {
        Ledger {
            docs: self.writer@,
            stores: shown(self.writer.stores()),
            mine: self.mine@,
            replaced: sets_of(self.replaced@),
            superseded: self.superseded@,
            replacements: self.replacements as int,
            key_bytes: self.key_bytes as int,
        }
    }

    /// The view the batch was built on.
    pub closed spec fn on(&self) -> &StoreView<'a> {
        self.view
    }

    /// The keys and deletions of that view.
    pub closed spec fn looks(&self) -> Lookup<'a> {
        self.lookup
    }

    /// How much of what the index being built can address is used.
    pub closed spec fn used(&self) -> Used {
        self.writer.used()
    }

    /// Whether a document of these terms can be added.
    pub open spec fn room(&self, terms: Seq<Seq<u8>>) -> bool {
        leaves_room(self.used(), terms)
    }

    pub closed spec fn wf(&self) -> bool {
        &&& self.view.wf()
        &&& self.view.unreadable(self.view.segments@.len() as int) is None
        &&& self.lookup.wf()
        &&& self.lookup.of(self.view)
        &&& self.writer.wf()
        &&& self.writer@.len() <= u32::MAX
        &&& self.replaced@.len() == self.view.segments@.len()
        &&& self.mine.wf()
        &&& self.replacements <= self.writer@.len()
        &&& forall|d: u32| #[trigger] self.superseded@.contains(d) ==> d < self.writer@.len()
        &&& forall|key: Seq<u8>|
            self.mine@.dom().contains(key) ==> #[trigger] self.mine@[key] < self.writer@.len()
    }

    /// A batch over a view with nothing in it, or what is wrong with the view's
    /// keys or deletions.
    pub fn over(view: &'v StoreView<'a>) -> (batch: Result<Self>)
        requires
            view.wf(),
        ensures
            match view.unreadable(view.segments@.len() as int) {
                Some(error) => batch matches Err(e) && e == error,
                None => {
                    &&& batch matches Ok(b)
                    &&& b.wf()
                    &&& b.on() == view
                    &&& b.looks().wf()
                    &&& b.looks().of(view)
                    &&& b.ledger() == blank_ledger(view.segments@.len())
                    &&& b.used() == unused()
                    &&& forall|terms: Seq<Seq<u8>>| few(terms) ==> #[trigger] b.room(terms)
                    &&& forall|text: Seq<char>|
                        text.len() <= 0x100_0000 ==> #[trigger] b.room(terms_of(text))
                },
            },
    {
        let lookup = match view.lookup() {
            Ok(lookup) => lookup,
            Err(error) => {
                return Err(error);
            },
        };
        let mut replaced: Vec<Option<Bitmap>> = Vec::new();
        while replaced.len() < view.segments.len()
            invariant
                replaced@.len() <= view.segments@.len(),
                forall|i: int| 0 <= i < replaced@.len() ==> #[trigger] replaced@[i] is None,
            decreases view.segments.len() - replaced.len(),
        {
            replaced.push(None);
        }
        let batch = Batch {
            view,
            lookup,
            writer: index::Writer::new(),
            replaced,
            superseded: Bitmap::new(),
            mine: KeyMap::new(),
            key_bytes: 0,
            replacements: 0,
        };
        proof {
            assert(batch.ledger().stores =~= Seq::<Seq<Field>>::empty());
            assert(batch.ledger().replaced =~= Seq::new(view.segments@.len(), |i: int| None));
            assert forall|terms: Seq<Seq<u8>>| few(terms) implies #[trigger] batch.room(terms) by {
                assert(batch.writer.room(terms));
            }
            assert forall|text: Seq<char>| text.len() <= 0x100_0000 implies #[trigger] batch.room(
                terms_of(text),
            ) by {
                assert(batch.writer.room(terms_of(text)));
            }
        }
        Ok(batch)
    }

    /// Whether a document of these terms can be added.
    pub fn has_room(&self, terms: &Vec<Vec<u8>>) -> (yes: bool)
        requires
            self.wf(),
        ensures
            yes == self.room(contents(terms@)),
    {
        self.writer.has_room(terms)
    }

    /// Adds a document under a key or under none, if there is room for it, and does
    /// nothing where there is not.
    pub fn offer(&mut self, key: Option<&[u8]>, text: &str, fields: Vec<Field>) -> (added: Result<
        Option<DocId>,
    >)
        requires
            old(self).wf(),
        ensures
            offered(*old(self), *final(self), seen(key), terms_of(text@), fields@, added),
    {
        let ghost was = *self;
        let ghost held = fields@;
        let mut analyzer = Analyzer::new();
        let terms = analyzer.analyze(text);
        if !self.has_room(&terms) {
            return Ok(None);
        }
        let plain: bool = fields.len() == 0;
        let added = match key {
            None => if plain {
                self.add(text)
            } else {
                self.add_with_fields(text, fields)
            },
            Some(key) => if plain {
                self.add_keyed(key, text)
            } else {
                self.add_keyed_with_fields(key, text, fields)
            },
        };
        assert(plain ==> held =~= Seq::<Field>::empty());
        assert(took(was, *self, seen(key), terms_of(text@), held, added));
        match added {
            Ok(doc) => Ok(Some(doc)),
            Err(error) => Err(error),
        }
    }

    /// Adds a document with fields under no key.
    pub fn add_with_fields(&mut self, text: &str, fields: Vec<Field>) -> (added: Result<DocId>)
        requires
            old(self).wf(),
            old(self).room(terms_of(text@)),
        ensures
            took(*old(self), *final(self), None, terms_of(text@), fields@, added),
    {
        let ghost held = fields@;
        let added = self.writer.add_with_fields(text, fields);
        proof {
            if added is Ok {
                assert(self.ledger().stores =~= grown(
                    old(self).ledger(),
                    terms_of(text@),
                    held,
                ).stores);
            }
        }
        added
    }

    /// Adds a document under no key.
    pub fn add(&mut self, text: &str) -> (added: Result<DocId>)
        requires
            old(self).wf(),
            old(self).room(terms_of(text@)),
        ensures
            took(*old(self), *final(self), None, terms_of(text@), Seq::empty(), added),
    {
        let fields: Vec<Field> = Vec::new();
        assert(fields@ =~= Seq::empty());
        self.add_with_fields(text, fields)
    }

    /// Adds a document under a key, replacing the store's document of that key
    /// and the batch's own.
    pub fn add_keyed_with_fields(&mut self, key: &[u8], text: &str, fields: Vec<Field>) -> (added:
        Result<DocId>)
        requires
            old(self).wf(),
            old(self).room(terms_of(text@)),
        ensures
            took(*old(self), *final(self), Some(key@), terms_of(text@), fields@, added),
    {
        let ghost was = *self;
        let ghost held = fields@;
        let doc: DocId = match self.add_with_fields(text, fields) {
            Ok(doc) => doc,
            Err(error) => {
                return Err(error);
            },
        };
        let ghost grew = grown(was.ledger(), terms_of(text@), held);
        assert(self.ledger() == grew);
        assert(doc == was.ledger().docs.len() as u32);
        self.replacing(key, doc);
        Ok(doc)
    }

    /// Adds a document under a key.
    pub fn add_keyed(&mut self, key: &[u8], text: &str) -> (added: Result<DocId>)
        requires
            old(self).wf(),
            old(self).room(terms_of(text@)),
        ensures
            took(*old(self), *final(self), Some(key@), terms_of(text@), Seq::empty(), added),
    {
        let fields: Vec<Field> = Vec::new();
        assert(fields@ =~= Seq::empty());
        self.add_keyed_with_fields(key, text, fields)
    }

    /// Adds a document that came out of the log.
    ///
    /// The record holds the analysed form, so this does not run the analyser and
    /// cannot disagree with the index the record was written beside. A record
    /// with a key replaces under that key exactly as
    /// [`add_keyed`](Self::add_keyed) would.
    pub fn add_record(&mut self, record: Record) -> (added: Result<DocId>)
        requires
            old(self).wf(),
            old(self).room(contents(record.terms@)),
        ensures
            final(self).wf(),
            final(self).on() == old(self).on(),
            final(self).looks() == old(self).looks(),
            if old(self).ledger().docs.len() < u32::MAX {
                &&& added matches Ok(doc) && doc == old(self).ledger().docs.len()
                &&& recorded(
                    old(self).ledger(),
                    old(self).looks(),
                    record,
                    final(self).ledger(),
                )
                &&& spends(old(self).used(), final(self).used(), contents(record.terms@))
            } else {
                &&& added matches Err(e) && e == (Error::NotSorted { at: u32::MAX })
                &&& final(self).ledger() == old(self).ledger()
                &&& final(self).used() == old(self).used()
            },
    {
        let ghost added_to = grown(
            old(self).ledger(),
            contents(record.terms@),
            record.fields@,
        );
        let doc: DocId = match self.writer.add_terms(&record.terms, record.fields) {
            Ok(doc) => doc,
            Err(error) => {
                return Err(error);
            },
        };
        proof {
            assert(self.ledger().stores =~= added_to.stores);
            assert(self.ledger() == added_to);
        }
        match &record.key {
            Some(key) => {
                self.replacing(key.as_slice(), doc);
            },
            None => {},
        }
        Ok(doc)
    }

    /// Notes that a document of the batch takes the place of whatever the key
    /// named before.
    fn replacing(&mut self, key: &[u8], doc: DocId)
        requires
            old(self).view.wf(),
            old(self).view.unreadable(old(self).view.segments@.len() as int) is None,
            old(self).lookup.wf(),
            old(self).lookup.of(old(self).view),
            old(self).writer.wf(),
            old(self).writer@.len() <= u32::MAX,
            old(self).replaced@.len() == old(self).view.segments@.len(),
            old(self).mine.wf(),
            old(self).replacements < old(self).writer@.len(),
            doc < old(self).writer@.len(),
            forall|d: u32| #[trigger]
                old(self).superseded@.contains(d) ==> d < old(self).writer@.len(),
            forall|key: Seq<u8>|
                old(self).mine@.dom().contains(key) ==> #[trigger] old(self).mine@[key] < old(
                    self,
                ).writer@.len(),
        ensures
            final(self).wf(),
            final(self).view == old(self).view,
            final(self).lookup == old(self).lookup,
            final(self).writer == old(self).writer,
            keyed(old(self).lookup, old(self).ledger(), key@, doc, final(self).ledger()),
    {
        let ghost was = *self;
        let owned = vstd::slice::slice_to_vec(key);
        let found = self.lookup.document(key);
        match self.mine.insert(owned, doc) {
            Some(held) => {
                self.superseded.insert(held);
                self.replacements = self.replacements + 1;
                proof {
                    assert(self.ledger() == replacing_of(was.ledger(), key@, doc, found));
                    assert forall|k: Seq<u8>| self.mine@.dom().contains(
                        k,
                    ) implies #[trigger] self.mine@[k] < self.writer@.len() by {
                        if k != key@ {
                            assert(was.mine@[k] < was.writer@.len());
                        }
                    }
                    assert(was.mine@[key@] < was.writer@.len());
                }
                return ;
            },
            None => {},
        }
        proof {
            assert forall|k: Seq<u8>| self.mine@.dom().contains(k) implies #[trigger] self.mine@[k]
                < self.writer@.len() by {
                if k != key@ {
                    assert(was.mine@[k] < was.writer@.len());
                }
            }
        }
        self.key_bytes = self.key_bytes.saturating_add(key.len() as u64);
        match found {
            Some((at, held)) => {
                let mut set: Bitmap = match &self.replaced[at] {
                    Some(set) => set.clone(),
                    None => Bitmap::new(),
                };
                set.insert(held);
                let ghost now = set@;
                self.replaced.set(at, Some(set));
                self.replacements = self.replacements + 1;
                proof {
                    let expected = replacing_of(was.ledger(), key@, doc, found);
                    assert(self.ledger().replaced =~= expected.replaced);
                    assert(self.ledger() == expected);
                }
            },
            None => {
                proof {
                    assert(self.ledger() == replacing_of(was.ledger(), key@, doc, found));
                }
            },
        }
    }

    /// How many documents the batch holds.
    pub fn len(&self) -> (n: usize)
        requires
            self.wf(),
        ensures
            n == self.ledger().docs.len(),
    {
        self.writer.len()
    }

    /// Whether it holds none.
    pub fn is_empty(&self) -> (empty: bool)
        requires
            self.wf(),
        ensures
            empty == (self.ledger().docs.len() == 0),
    {
        self.writer.is_empty()
    }

    /// How many documents it replaces.
    pub fn replacements(&self) -> (n: usize)
        ensures
            n == self.ledger().replacements,
    {
        self.replacements
    }

    /// How many bytes the keys it was given take.
    pub fn key_bytes(&self) -> (n: u64)
        requires
            self.wf(),
        ensures
            n == self.ledger().key_bytes,
    {
        self.key_bytes
    }

    /// Works out what the batch adds to the store.
    pub fn finish(self) -> (prepared: Result<Prepared>)
        requires
            self.wf(),
        ensures
            prepared matches Ok(p) && prepares(self.on(), self.ledger(), p),
    {
        let ghost entry = self;
        let Batch {
            view,
            lookup,
            writer,
            replaced,
            superseded,
            mine,
            key_bytes,
            replacements,
        } = self;
        let ghost given = sets_of(replaced@);
        let mut deletions: Vec<(usize, Bitmap)> = Vec::new();
        let mut at: usize = 0;
        assert(sets(deletions@) =~= whole_sets(view, given, 0));
        while at < replaced.len()
            invariant
                at <= replaced@.len(),
                replaced@.len() == view.segments@.len(),
                given == sets_of(replaced@),
                view.wf(),
                view.unreadable(view.segments@.len() as int) is None,
                sets(deletions@) == whole_sets(view, given, at as int),
            decreases replaced.len() - at,
        {
            proof {
                lemma_readable(view, at as int, view.segments@.len() as int);
            }
            let ghost had = deletions@;
            match &replaced[at] {
                None => {},
                Some(mine) => {
                    // Joined with what the segment already hides, because a set
                    // of deletions is the whole answer for its segment and this
                    // one is only the part this batch is adding to it.
                    let mut whole: Bitmap = match view.deleted(at) {
                        Ok(Some(hidden)) => hidden,
                        Ok(None) => Bitmap::new(),
                        Err(error) => {
                            assert(false);
                            return Err(error);
                        },
                    };
                    whole.union_with(mine);
                    proof {
                        let expected = match view.deleted_of(at as int) {
                            Ok(Some(hidden)) => hidden.union(mine@),
                            _ => mine@,
                        };
                        assert(whole@ =~= expected);
                        assert(sets(had.push((at, whole))) =~= sets(had).push((at, whole@)));
                    }
                    deletions.push((at, whole));
                },
            }
            at = at + 1;
        }
        let ghost before_own = deletions@;
        let mut segment: Option<(Contents, u32)> = None;
        if !writer.is_empty() {
            let docs: u32 = writer.len() as u32;
            let mut parts: Vec<index::Writer> = Vec::new();
            let ghost corpus = writer@;
            parts.push(writer);
            proof {
                reveal_with_fuel(index::corpus, 2);
                assert(parts@.drop_last() =~= Seq::<index::Writer>::empty());
                assert(index::corpus(parts@) =~= corpus);
                reveal_with_fuel(index::stored, 2);
                assert(index::stored(parts@) =~= writer.stores());
                lemma_shown_any(writer.stores());
            }
            let contents = match index::Writer::build(parts) {
                Ok(contents) => contents,
                Err(error) => {
                    assert(false);
                    return Err(error);
                },
            };
            assert(index::stored(parts@) == entry.writer.stores());
            assert(contents.fields is Some == index::stores_any(entry.writer.stores()));
            assert(entry.ledger().stores == shown(entry.writer.stores()));
            assert(contents.fields is Some == exists|d: int|
                0 <= d < entry.ledger().stores.len() && (#[trigger] entry.ledger().stores[d]).len()
                    > 0);
            // The segment this commit adds answers to the position it is about
            // to take, which is where a key used twice in one batch puts the
            // copy that lost.
            if !superseded.is_empty() {
                proof {
                    assert(sets(before_own.push((at, superseded))) =~= sets(before_own).push(
                        (at, superseded@),
                    ));
                }
                deletions.push((view.segments.len(), superseded));
            }
            segment = Some((contents, docs));
        }
        proof {
            let n = view.segments@.len();
            let own = if entry.ledger().docs.len() > 0 && entry.ledger().superseded != Set::<
                u32,
            >::empty() {
                seq![(n as usize, entry.ledger().superseded)]
            } else {
                Seq::empty()
            };
            assert(sets(deletions@) =~= whole_sets(view, given, n as int) + own);
        }
        Ok(Prepared { segment, deletions, keys: mine.entries, epoch: view.epoch })
    }
}

/// A key list as a map.
pub open spec fn keys_of(entries: Seq<(Vec<u8>, DocId)>) -> Map<Seq<u8>, DocId> {
    Map::new(
        |key: Seq<u8>| exists|i: int| #[trigger] at_key(entries, key, i),
        |key: Seq<u8>|
            entries[choose|i: int| #[trigger] at_key(entries, key, i)].1,
    )
}

/// The deletions of each segment of a readable view can be read.
proof fn lemma_readable(view: &StoreView<'_>, at: int, n: int)
    requires
        0 <= at < n,
        view.unreadable(n) is None,
    ensures
        view.deleted_of(at) is Ok,
    decreases n,
{
    if at < n - 1 {
        lemma_readable(view, at, n - 1);
    }
}

/// Whether a batch built on `read` may be committed to a store at `committed`.
pub fn fresh(read: u64, committed: u64) -> (checked: Result<()>)
    ensures
        if read == committed {
            checked is Ok
        } else {
            checked matches Err(e) && e == (Error::StaleView { read, committed })
        },
{
    if read != committed {
        return Err(Error::StaleView { read, committed });
    }
    Ok(())
}

/// How many documents and bytes each segment a batch adds has.
pub open spec fn sized(segment: Option<(Contents, u32)>, len: u64) -> Seq<(u32, u64)> {
    match segment {
        Some((_, docs)) => seq![(docs, len)],
        None => Seq::empty(),
    }
}

impl Prepared {
    /// What committing the batch comes to, where its segment takes `len` bytes and
    /// `before` is how many documents each segment its deletions name hides now.
    pub open spec fn commits(
        &self,
        store: Store,
        len: u64,
        created: u64,
        before: Seq<u64>,
        published: Result<Published>,
    ) -> bool {
        if self.epoch != store.manifest.epoch {
            published matches Err(e) && e == (Error::StaleView {
                read: self.epoch,
                committed: store.manifest.epoch,
            })
        } else {
            publishes(
                store,
                sized(self.segment, len),
                created,
                sets(self.deletions@),
                before,
                published,
            )
        }
    }

    /// Works out what committing the batch writes.
    ///
    /// Reports [`Error::StaleView`] if the store is not where the batch found it.
    pub fn commit(&self, store: &Store, len: u64, created: u64, before: &Vec<u64>) -> (published:
        Result<Published>)
        requires
            before@.len() == self.deletions@.len(),
            store.manifest.segments@.len() < usize::MAX,
            fits(store.segments, sized(self.segment, len), sets(self.deletions@)),
        ensures
            self.commits(*store, len, created, before@, published),
    {
        match fresh(self.epoch, store.manifest.epoch) {
            Ok(()) => {},
            Err(error) => {
                return Err(error);
            },
        }
        let mut segments: Vec<(u32, u64)> = Vec::new();
        match &self.segment {
            Some((_, docs)) => {
                segments.push((*docs, len));
            },
            None => {},
        }
        assert(segments@ =~= sized(self.segment, len));
        store.publish_all(&segments, created, &self.deletions, before)
    }
}

// ---------------------------------------------------------------------------
// The log.
// ---------------------------------------------------------------------------

/// A logged batch that has been built and not yet written.
#[derive(Debug)]
pub struct Pending {
    /// The segment and the deletions.
    pub prepared: Prepared,
    /// The log position the batch wrote up to.
    pub through: u64,
}

impl Pending {
    /// How many documents it holds.
    pub fn documents(&self) -> (n: u32)
        ensures
            n == match self.prepared.segment {
                Some((_, docs)) => docs,
                None => 0,
            },
    {
        match &self.prepared.segment {
            Some((_, docs)) => *docs,
            None => 0,
        }
    }

    /// Frees the log and works out what the commit writes.
    ///
    /// Before the publish and not after it. The head reaches the platter inside
    /// the manifest the publish writes, so freeing it here is what makes one
    /// commit out of the segment and the log position.
    ///
    /// Reports [`Error::BadPositions`] if the log has moved under this batch, and
    /// otherwise what [`Prepared::commit`] reports.
    pub fn commit(&self, store: &mut Store, len: u64, created: u64, before: &Vec<u64>) -> (published:
        Result<Published>)
        requires
            before@.len() == self.prepared.deletions@.len(),
            old(store).manifest.segments@.len() < usize::MAX,
            fits(
                old(store).segments,
                sized(self.prepared.segment, len),
                sets(self.prepared.deletions@),
            ),
        ensures
            if old(store).log.head <= self.through <= old(store).log.tail {
                &&& *final(store) == (Store {
                    log: Log { head: self.through, ..old(store).log },
                    ..*old(store)
                })
                &&& self.prepared.commits(*old(store), len, created, before@, published)
            } else {
                &&& *final(store) == *old(store)
                &&& published matches Err(e) && e == (Error::BadPositions {
                    head: self.through,
                    tail: old(store).log.tail,
                })
            },
    {
        match store.truncate_log(self.through) {
            Ok(()) => {},
            Err(error) => {
                return Err(error);
            },
        }
        assert(draft_of(*store) == draft_of(*old(store)));
        self.prepared.commit(store, len, created, before)
    }
}

/// The freed log and the segment land together: the manifest that a pending batch
/// is committed with names its segments and frees the log up to what it wrote, so
/// there is no state of the file where a document is in both and none where it is
/// in neither.
pub proof fn law_log_and_segment_land_together(
    pending: Pending,
    before: Store,
    after: Store,
    published: Published,
    written: u64,
    next: Manifest,
)
    requires
        after == (Store { log: Log { head: pending.through, ..before.log }, ..before }),
        follows(after, published.manifest, written, next),
    ensures
        next.wal_head == pending.through,
        next.wal_tail == before.log.tail,
        next.segments@ == published.manifest.segments@,
        next.epoch == plus(before.manifest.epoch as int, 1),
{
}

/// What a replay of the log did.
#[derive(Debug, Clone, Copy, PartialEq, Eq, Structural)]
pub struct Replayed {
    pub records: u64,
    pub bytes: u64,
    pub documents: u32,
    pub replacements: usize,
    pub epoch: Option<u64>,
}

impl Default for Replayed {
    fn default() -> (replayed: Self)
        ensures
            replayed == nothing_replayed(),
    {
        Replayed { records: 0, bytes: 0, documents: 0, replacements: 0, epoch: None }
    }
}

pub open spec fn nothing_replayed() -> Replayed {
    Replayed { records: 0, bytes: 0, documents: 0, replacements: 0, epoch: None }
}

impl Replayed {
    /// Whether the log held nothing.
    pub fn is_empty(&self) -> (empty: bool)
        ensures
            empty == (self.records == 0),
    {
        self.records == 0
    }
}

/// The log being turned into a batch.
///
/// The first thing that goes wrong stops the replay applying records and is
/// reported once the walk is over.
pub struct Replay<'a, 'v> {
    batch: Batch<'a, 'v>,
    /// The kind of a record that holds a document.
    kind: u32,
    trouble: Option<Error>,
}

impl<'a, 'v> Replay<'a, 'v> {
    pub closed spec fn ledger(&self) -> Ledger {
        self.batch.ledger()
    }

    pub closed spec fn trouble(&self) -> Option<Error> {
        self.trouble
    }

    pub closed spec fn known(&self) -> u32 {
        self.kind
    }

    pub closed spec fn on(&self) -> &StoreView<'a> {
        self.batch.on()
    }

    pub closed spec fn looks(&self) -> Lookup<'a> {
        self.batch.looks()
    }

    /// How much of what the index being built can address is used.
    pub closed spec fn used(&self) -> Used {
        self.batch.used()
    }

    /// Whether a document of these terms can be added.
    pub open spec fn room(&self, terms: Seq<Seq<u8>>) -> bool {
        leaves_room(self.used(), terms)
    }

    pub closed spec fn wf(&self) -> bool {
        self.batch.wf()
    }

    /// A replay over a view, of records of kind `kind`.
    pub fn over(view: &'v StoreView<'a>, kind: u32) -> (replay: Result<Self>)
        requires
            view.wf(),
        ensures
            match view.unreadable(view.segments@.len() as int) {
                Some(error) => replay matches Err(e) && e == error,
                None => {
                    &&& replay matches Ok(r)
                    &&& r.wf()
                    &&& r.on() == view
                    &&& r.known() == kind
                    &&& r.trouble() is None
                    &&& r.looks().wf()
                    &&& r.looks().of(view)
                    &&& r.ledger() == blank_ledger(view.segments@.len())
                    &&& r.used() == unused()
                    &&& forall|terms: Seq<Seq<u8>>| few(terms) ==> #[trigger] r.room(terms)
                    &&& forall|text: Seq<char>|
                        text.len() <= 0x100_0000 ==> #[trigger] r.room(terms_of(text))
                },
            },
    {
        match Batch::over(view) {
            Ok(batch) => {
                let replay = Replay { batch, kind, trouble: None };
                proof {
                    assert forall|terms: Seq<Seq<u8>>| few(terms) implies #[trigger] replay.room(
                        terms,
                    ) by {
                        assert(replay.batch.room(terms));
                    }
                    assert forall|text: Seq<char>|
                        text.len() <= 0x100_0000 implies #[trigger] replay.room(terms_of(text)) by {
                        assert(replay.batch.room(terms_of(text)));
                    }
                }
                Ok(replay)
            },
            Err(error) => Err(error),
        }
    }

    /// Whether a document of these terms can be added.
    pub fn has_room(&self, terms: &Vec<Vec<u8>>) -> (yes: bool)
        requires
            self.wf(),
        ensures
            yes == self.room(contents(terms@)),
    {
        self.batch.has_room(terms)
    }

    /// Applies one record of the log: the document it decoded to, or what was
    /// wrong with it.
    ///
    /// A record of another kind is trouble rather than something to walk past:
    /// it is there because something promised a caller it would be applied.
    pub fn apply(&mut self, kind: u32, position: u64, decoded: Result<Record>)
        requires
            old(self).wf(),
            old(self).trouble() is None && kind == old(self).known() ==> (decoded matches Ok(held)
                ==> old(self).room(contents(held.terms@))),
        ensures
            final(self).wf(),
            final(self).on() == old(self).on(),
            final(self).looks() == old(self).looks(),
            final(self).known() == old(self).known(),
            if old(self).trouble() is Some {
                &&& final(self).trouble() == old(self).trouble()
                &&& final(self).ledger() == old(self).ledger()
                &&& final(self).used() == old(self).used()
            } else if kind != old(self).known() {
                &&& final(self).trouble() == Some(Error::UnknownRecord { kind, position })
                &&& final(self).ledger() == old(self).ledger()
                &&& final(self).used() == old(self).used()
            } else {
                match decoded {
                    Err(error) => {
                        &&& final(self).trouble() == Some(error)
                        &&& final(self).ledger() == old(self).ledger()
                        &&& final(self).used() == old(self).used()
                    },
                    Ok(held) => if old(self).ledger().docs.len() < u32::MAX {
                        &&& final(self).trouble() is None
                        &&& recorded(
                            old(self).ledger(),
                            old(self).looks(),
                            held,
                            final(self).ledger(),
                        )
                        &&& spends(
                            old(self).used(),
                            final(self).used(),
                            contents(held.terms@),
                        )
                    } else {
                        &&& final(self).trouble() == Some(Error::NotSorted { at: u32::MAX })
                        &&& final(self).ledger() == old(self).ledger()
                        &&& final(self).used() == old(self).used()
                    },
                }
            },
    {
        if self.trouble.is_some() {
            return ;
        }
        if kind != self.kind {
            self.trouble = Some(Error::UnknownRecord { kind, position });
            return ;
        }
        match decoded {
            Err(error) => {
                self.trouble = Some(error);
            },
            Ok(held) => match self.batch.add_record(held) {
                Ok(_) => {},
                Err(error) => {
                    self.trouble = Some(error);
                },
            },
        }
    }

    /// What the replay of a walked log comes to: the first trouble there was, or
    /// nothing to commit where the log held no record, or what to commit with
    /// what to report once it is.
    pub fn finish(self, walked: &Walked) -> (finished: Result<Option<(Prepared, Replayed)>>)
        requires
            self.wf(),
        ensures
            match self.trouble() {
                Some(error) => finished matches Err(e) && e == error,
                None => if walked.records == 0 {
                    finished matches Ok(None)
                } else {
                    &&& finished matches Ok(Some((prepared, replayed)))
                    &&& prepares(self.on(), self.ledger(), prepared)
                    &&& replayed == (Replayed {
                        records: walked.records,
                        bytes: walked.bytes,
                        documents: self.ledger().docs.len() as u32,
                        replacements: self.ledger().replacements as usize,
                        epoch: None,
                    })
                },
            },
    {
        match self.trouble {
            Some(error) => {
                return Err(error);
            },
            None => {},
        }
        if walked.records == 0 {
            return Ok(None);
        }
        let replacements: usize = self.batch.replacements();
        let prepared = match self.batch.finish() {
            Ok(prepared) => prepared,
            Err(error) => {
                assert(false);
                return Err(error);
            },
        };
        let documents: u32 = match &prepared.segment {
            Some((_, docs)) => *docs,
            None => 0,
        };
        let replayed = Replayed {
            records: walked.records,
            bytes: walked.bytes,
            documents,
            replacements,
            epoch: None,
        };
        Ok(Some((prepared, replayed)))
    }
}

/// How much of a batch is in the log.
#[derive(Debug, Clone, Copy, PartialEq, Eq, Structural)]
pub struct Appended {
    /// How many of its documents are.
    pub records: u64,
    /// How many bytes they took.
    pub bytes: u64,
    /// How many are not, because the log was full.
    pub unlogged: u64,
}

impl Default for Appended {
    fn default() -> (appended: Self)
        ensures
            appended == (Appended { records: 0, bytes: 0, unlogged: 0 }),
    {
        Appended { records: 0, bytes: 0, unlogged: 0 }
    }
}

impl Appended {
    /// Notes how appending a document's record of `len` bytes went. A full log
    /// is not a failure: the document is in the batch all the same.
    pub fn note(&mut self, len: usize, appended: Result<()>) -> (noted: Result<()>)
        requires
            old(self).records < u64::MAX,
            old(self).unlogged < u64::MAX,
        ensures
            match appended {
                Ok(()) => {
                    &&& noted is Ok
                    &&& *final(self) == (Appended {
                        records: (old(self).records + 1) as u64,
                        bytes: plus(old(self).bytes as int, len as int) as u64,
                        ..*old(self)
                    })
                },
                Err(Error::LogFull { .. }) => {
                    &&& noted is Ok
                    &&& *final(self) == (Appended {
                        unlogged: (old(self).unlogged + 1) as u64,
                        ..*old(self)
                    })
                },
                Err(error) => {
                    &&& noted matches Err(e) && e == error
                    &&& *final(self) == *old(self)
                },
            },
    {
        match appended {
            Ok(()) => {
                self.records = self.records + 1;
                self.bytes = self.bytes.saturating_add(len as u64);
                Ok(())
            },
            Err(Error::LogFull { .. }) => {
                self.unlogged = self.unlogged + 1;
                Ok(())
            },
            Err(error) => Err(error),
        }
    }
}

/// A batch that is written into the log as it is filled.
///
/// Each document goes into the batch first, and its record is then appended to the
/// log by the caller, who says with [`note`](Appended::note) how that went. A
/// store that stops before the batch is committed gives the documents back from
/// the log.
pub struct Logged<'a, 'v> {
    pub batch: Batch<'a, 'v>,
    pub appended: Appended,
}

impl<'a, 'v> Logged<'a, 'v> {
    /// A logged batch over a view with nothing in it, or what is wrong with the
    /// view's keys or deletions.
    pub fn over(view: &'v StoreView<'a>) -> (logged: Result<Self>)
        requires
            view.wf(),
        ensures
            match view.unreadable(view.segments@.len() as int) {
                Some(error) => logged matches Err(e) && e == error,
                None => {
                    &&& logged matches Ok(l)
                    &&& l.batch.wf()
                    &&& l.batch.on() == view
                    &&& l.batch.looks().wf()
                    &&& l.batch.looks().of(view)
                    &&& l.batch.ledger() == blank_ledger(view.segments@.len())
                    &&& l.batch.used() == unused()
                    &&& forall|terms: Seq<Seq<u8>>| few(terms) ==> #[trigger] l.batch.room(terms)
                    &&& forall|text: Seq<char>|
                        text.len() <= 0x100_0000 ==> #[trigger] l.batch.room(terms_of(text))
                    &&& l.appended == (Appended { records: 0, bytes: 0, unlogged: 0 })
                },
            },
    {
        match Batch::over(view) {
            Ok(batch) => Ok(
                Logged { batch, appended: Appended { records: 0, bytes: 0, unlogged: 0 } },
            ),
            Err(error) => Err(error),
        }
    }

    /// Whether a document of these terms can be added.
    pub fn has_room(&self, terms: &Vec<Vec<u8>>) -> (yes: bool)
        requires
            self.batch.wf(),
        ensures
            yes == self.batch.room(contents(terms@)),
    {
        self.batch.has_room(terms)
    }

    /// Adds a document under a key or under none, if there is room for it, and does
    /// nothing where there is not.
    pub fn offer(&mut self, key: Option<&[u8]>, text: &str, fields: Vec<Field>) -> (added: Result<
        Option<DocId>,
    >)
        requires
            old(self).batch.wf(),
        ensures
            offered(
                old(self).batch,
                final(self).batch,
                seen(key),
                terms_of(text@),
                fields@,
                added,
            ),
            final(self).appended == old(self).appended,
    {
        let ghost was = self.batch;
        let ghost held = fields@;
        let mut analyzer = Analyzer::new();
        let terms = analyzer.analyze(text);
        if !self.has_room(&terms) {
            return Ok(None);
        }
        let plain: bool = fields.len() == 0;
        let added = match key {
            None => if plain {
                self.add(text)
            } else {
                self.add_with_fields(text, fields)
            },
            Some(key) => if plain {
                self.add_keyed(key, text)
            } else {
                self.add_keyed_with_fields(key, text, fields)
            },
        };
        assert(plain ==> held =~= Seq::<Field>::empty());
        assert(took(was, self.batch, seen(key), terms_of(text@), held, added));
        match added {
            Ok(doc) => Ok(Some(doc)),
            Err(error) => Err(error),
        }
    }

    /// Adds a document under no key.
    pub fn add(&mut self, text: &str) -> (added: Result<DocId>)
        requires
            old(self).batch.wf(),
            old(self).batch.room(terms_of(text@)),
        ensures
            took(
                old(self).batch,
                final(self).batch,
                None,
                terms_of(text@),
                Seq::empty(),
                added,
            ),
            final(self).appended == old(self).appended,
    {
        self.batch.add(text)
    }

    /// Adds a document with fields under no key.
    pub fn add_with_fields(&mut self, text: &str, fields: Vec<Field>) -> (added: Result<DocId>)
        requires
            old(self).batch.wf(),
            old(self).batch.room(terms_of(text@)),
        ensures
            took(old(self).batch, final(self).batch, None, terms_of(text@), fields@, added),
            final(self).appended == old(self).appended,
    {
        self.batch.add_with_fields(text, fields)
    }

    /// Adds a document under a key.
    pub fn add_keyed(&mut self, key: &[u8], text: &str) -> (added: Result<DocId>)
        requires
            old(self).batch.wf(),
            old(self).batch.room(terms_of(text@)),
        ensures
            took(
                old(self).batch,
                final(self).batch,
                Some(key@),
                terms_of(text@),
                Seq::empty(),
                added,
            ),
            final(self).appended == old(self).appended,
    {
        self.batch.add_keyed(key, text)
    }

    /// Adds a document with fields under a key.
    pub fn add_keyed_with_fields(&mut self, key: &[u8], text: &str, fields: Vec<Field>) -> (added:
        Result<DocId>)
        requires
            old(self).batch.wf(),
            old(self).batch.room(terms_of(text@)),
        ensures
            took(old(self).batch, final(self).batch, Some(key@), terms_of(text@), fields@, added),
            final(self).appended == old(self).appended,
    {
        self.batch.add_keyed_with_fields(key, text, fields)
    }

    /// How many documents it holds.
    pub fn len(&self) -> (n: usize)
        requires
            self.batch.wf(),
        ensures
            n == self.batch.ledger().docs.len(),
    {
        self.batch.len()
    }

    /// Whether it holds none.
    pub fn is_empty(&self) -> (empty: bool)
        requires
            self.batch.wf(),
        ensures
            empty == (self.batch.ledger().docs.len() == 0),
    {
        self.batch.is_empty()
    }

    /// How many documents it replaces, in the store and of its own.
    pub fn replacements(&self) -> (n: usize)
        ensures
            n == self.batch.ledger().replacements,
    {
        self.batch.replacements()
    }

    /// Whether it should be committed before it takes more: a document of it did
    /// not fit the log.
    pub fn is_full(&self) -> (full: bool)
        ensures
            full == (self.appended.unlogged > 0),
    {
        self.appended.unlogged > 0
    }

    /// How many of its documents are in the log.
    pub fn records(&self) -> (n: u64)
        ensures
            n == self.appended.records,
    {
        self.appended.records
    }

    /// How many bytes of the log they took.
    pub fn logged(&self) -> (n: u64)
        ensures
            n == self.appended.bytes,
    {
        self.appended.bytes
    }

    /// How many of its documents are not in the log, because it was full.
    pub fn unlogged(&self) -> (n: u64)
        ensures
            n == self.appended.unlogged,
    {
        self.appended.unlogged
    }

    /// Works out what the batch adds to the store, and the log position it will be
    /// committed with.
    ///
    /// The position is read here rather than at the commit, so that what is freed
    /// is what this batch wrote and not whatever else has reached the log since.
    pub fn finish(self, store: &Store) -> (pending: Result<Pending>)
        requires
            self.batch.wf(),
        ensures
            pending matches Ok(p) && p.through == store.log.tail && prepares(
                self.batch.on(),
                self.batch.ledger(),
                p.prepared,
            ),
    {
        match self.batch.finish() {
            Ok(prepared) => Ok(Pending { prepared, through: store.log.tail }),
            Err(error) => Err(error),
        }
    }
}

} // verus!
