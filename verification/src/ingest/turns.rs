//! A group of batches against the same batches committed one at a time.
use super::group::{all_joined, group_of, keys_written, with_part, Group};
use super::laws::{
    accounted, hidden_in, hides_then, law_a_batch_answers_to_its_keys,
    law_a_batch_commits_whole_sets, lemma_answer_in, replaces,
};
use super::{keys_of, prepares, Ledger, Prepared};
use crate::file::answers::answer;
use crate::file::publish::sets;
use crate::file::view::View as StoreView;
use crate::keymap::{at_key, keys_ascend};
use crate::order::{before, lemma_before_irreflexive};
use crate::DocId;
use vstd::prelude::*;

verus! {

/// A batch is what a ledger comes to over a store that hides `gone`: a segment if it
/// took a document, its keys, and the whole set of each segment that hides more
/// once it is committed.
pub open spec fn stands_for(part: Prepared, ledger: Ledger, gone: Seq<Set<u32>>) -> bool {
    let n = gone.len() as int;
    let named = sets(part.deletions@);
    let hides = hides_then(gone, ledger);
    &&& part.segment is Some == (ledger.docs.len() > 0)
    &&& keys_of(part.keys@) == ledger.mine
    &&& keys_ascend(part.keys@)
    &&& forall|k: int|
        0 <= k < named.len() ==> {
            &&& (#[trigger] named[k]).0 <= n
            &&& named[k].1 == hides[named[k].0 as int]
            &&& named[k].0 == n ==> part.segment is Some
        }
    &&& forall|i: int|
        0 <= i <= n && (forall|k: int| 0 <= k < named.len() ==> (#[trigger] named[k]).0 != i)
            ==> #[trigger] hides[i] == if i < n {
            gone[i]
        } else {
            Set::empty()
        }
}

/// A batch that was finished over a view stands for what it had worked out.
pub proof fn law_a_finished_batch_stands_for_its_ledger(
    view: &StoreView<'_>,
    ledger: Ledger,
    prepared: Prepared,
    tables: Seq<Map<Seq<u8>, DocId>>,
)
    requires
        tables.len() == view.segments@.len() < usize::MAX,
        accounted(ledger, tables, hidden_in(view)),
        prepares(view, ledger, prepared),
    ensures
        stands_for(prepared, ledger, hidden_in(view)),
{
    law_a_batch_commits_whole_sets(view, ledger, prepared, tables);
    let n = view.segments@.len() as int;
    let named = sets(prepared.deletions@);
    assert forall|k: int|
        0 <= k < named.len() && (#[trigger] named[k]).0 == n implies prepared.segment is Some by {
        let whole = super::whole_sets(view, ledger.replaced, n);
        super::laws::lemma_whole_sets(view, ledger, n);
        if k < whole.len() {
            assert(named[k] == whole[k]);
        }
    }
}

/// The tables and the deletions of a store once the first `n` batches are committed
/// over it one at a time, each worked out over the store that the one before left.
pub open spec fn in_turn(
    tables: Seq<Map<Seq<u8>, DocId>>,
    gone: Seq<Set<u32>>,
    ledgers: Seq<Ledger>,
    n: int,
) -> (Seq<Map<Seq<u8>, DocId>>, Seq<Set<u32>>)
    decreases n,
{
    if n <= 0 {
        (tables, gone)
    } else {
        let was = in_turn(tables, gone, ledgers, n - 1);
        let ledger = ledgers[n - 1];
        if ledger.docs.len() > 0 {
            (was.0.push(ledger.mine), hides_then(was.1, ledger))
        } else {
            was
        }
    }
}

/// The tables of a store once the first `n` batches of a group are committed over it
/// together.
pub open spec fn tables_with(
    tables: Seq<Map<Seq<u8>, DocId>>,
    parts: Seq<Prepared>,
    n: int,
) -> Seq<Map<Seq<u8>, DocId>>
    decreases n,
{
    if n <= 0 {
        tables
    } else {
        let was = tables_with(tables, parts, n - 1);
        if parts[n - 1].segment is Some {
            was.push(keys_of(parts[n - 1].keys@))
        } else {
            was
        }
    }
}

/// The deletions of a store once a group is committed over it.
pub open spec fn gone_with(gone: Seq<Set<u32>>, group: Group) -> Seq<Set<u32>> {
    Seq::new(
        gone.len() + group.segments.len(),
        |i: int|
            if group.deleted.dom().contains(i as usize) {
                group.deleted[i as usize]
            } else if i < gone.len() {
                gone[i]
            } else {
                Set::empty()
            },
    )
}

/// A group deletes a document.
spec fn deletes(deleted: Map<usize, Set<u32>>, at: int, doc: u32) -> bool {
    0 <= at <= usize::MAX && deleted.dom().contains(at as usize) && deleted[at as usize].contains(
        doc,
    )
}

/// What one set of a batch deletes.
spec fn set_deletes(
    deletion: (usize, Set<u32>),
    base: usize,
    position: usize,
    at: int,
    doc: u32,
) -> bool {
    at == (if deletion.0 == base {
        position
    } else {
        deletion.0
    }) && deletion.1.contains(doc)
}

/// Joining sets in deletes what they delete.
proof fn lemma_joined(
    deleted: Map<usize, Set<u32>>,
    deletions: Seq<(usize, Set<u32>)>,
    base: usize,
    position: usize,
    n: int,
)
    requires
        0 <= n <= deletions.len(),
    ensures
        ({
            let after = all_joined(deleted, deletions, base, position, n);
            &&& forall|at: int, doc: u32| #[trigger]
                deletes(after, at, doc) == (deletes(deleted, at, doc) || exists|k: int|
                    0 <= k < n && #[trigger] set_deletes(deletions[k], base, position, at, doc))
            &&& forall|at: usize| #[trigger]
                after.dom().contains(at) == (deleted.dom().contains(at) || exists|k: int|
                    0 <= k < n && at == (if (#[trigger] deletions[k]).0 == base {
                        position
                    } else {
                        deletions[k].0
                    }))
        }),
    decreases n,
{
    if n > 0 {
        lemma_joined(deleted, deletions, base, position, n - 1);
        let had = all_joined(deleted, deletions, base, position, n - 1);
        let after = all_joined(deleted, deletions, base, position, n);
        let last = deletions[n - 1];
        assert forall|at: int, doc: u32| #[trigger]
            deletes(after, at, doc) == (deletes(deleted, at, doc) || exists|k: int|
                0 <= k < n && #[trigger] set_deletes(deletions[k], base, position, at, doc)) by {
            assert(deletes(after, at, doc) == (deletes(had, at, doc) || set_deletes(
                last,
                base,
                position,
                at,
                doc,
            )));
            if exists|k: int|
                0 <= k < n && #[trigger] set_deletes(deletions[k], base, position, at, doc) {
                let k = choose|k: int|
                    0 <= k < n && #[trigger] set_deletes(deletions[k], base, position, at, doc);
                if k < n - 1 {
                    assert(set_deletes(deletions[k], base, position, at, doc));
                }
            }
            if set_deletes(last, base, position, at, doc) {
                assert(set_deletes(deletions[n - 1], base, position, at, doc));
            }
        }
        assert forall|at: usize| #[trigger]
            after.dom().contains(at) == (deleted.dom().contains(at) || exists|k: int|
                0 <= k < n && at == (if (#[trigger] deletions[k]).0 == base {
                    position
                } else {
                    deletions[k].0
                })) by {
            assert(after.dom().contains(at) == (had.dom().contains(at) || at == (if last.0 == base {
                position
            } else {
                last.0
            })));
        }
    }
}

/// What writing keys deletes: the copies that the group had under them.
proof fn lemma_written(group: Group, keys: Seq<(Vec<u8>, DocId)>, position: usize, n: int)
    requires
        0 <= n <= keys.len(),
        keys_ascend(keys),
    ensures
        ({
            let after = keys_written(group, keys, position, n);
            &&& after.segments == group.segments
            &&& forall|key: Seq<u8>| #[trigger]
                after.written.dom().contains(key) == (group.written.dom().contains(key) || exists|
                    j: int,
                | j < n && #[trigger] at_key(keys, key, j))
            &&& forall|j: int|
                0 <= j < n ==> after.written.dom().contains((#[trigger] keys[j]).0@)
                    && after.written[keys[j].0@] == (position, keys[j].1)
            &&& forall|key: Seq<u8>|
                group.written.dom().contains(key) && (forall|j: int|
                    j < n ==> !#[trigger] at_key(keys, key, j)) ==> #[trigger] after.written[key]
                    == group.written[key]
            &&& forall|at: int, doc: u32| #[trigger]
                deletes(after.deleted, at, doc) == (deletes(group.deleted, at, doc) || exists|
                    j: int,
                |
                    0 <= j < n && group.written.dom().contains((#[trigger] keys[j]).0@)
                        && group.written[keys[j].0@].0 == at && group.written[keys[j].0@].1 == doc)
            &&& forall|at: usize| #[trigger]
                after.deleted.dom().contains(at) == (group.deleted.dom().contains(at) || exists|
                    j: int,
                |
                    0 <= j < n && group.written.dom().contains((#[trigger] keys[j]).0@)
                        && group.written[keys[j].0@].0 == at)
        }),
    decreases n,
{
    if n > 0 {
        lemma_written(group, keys, position, n - 1);
        let had = keys_written(group, keys, position, n - 1);
        let after = keys_written(group, keys, position, n);
        let last = keys[n - 1];
        assert forall|j: int| j < n - 1 implies !#[trigger] at_key(keys, last.0@, j) by {
            if at_key(keys, last.0@, j) {
                lemma_before_irreflexive(last.0@);
                assert(before(keys[j].0@, keys[n - 1].0@));
            }
        }
        assert(at_key(keys, last.0@, n - 1));
        assert(had.written.dom().contains(last.0@) == group.written.dom().contains(last.0@));
        assert(group.written.dom().contains(last.0@) ==> had.written[last.0@]
            == group.written[last.0@]);
        assert forall|key: Seq<u8>| #[trigger]
            after.written.dom().contains(key) == (group.written.dom().contains(key) || exists|
                j: int,
            | j < n && #[trigger] at_key(keys, key, j)) by {
            if exists|j: int| j < n && #[trigger] at_key(keys, key, j) {
                let j = choose|j: int| j < n && #[trigger] at_key(keys, key, j);
                if j < n - 1 {
                    assert(had.written.dom().contains(key));
                }
            }
        }
        assert forall|j: int| 0 <= j < n implies after.written.dom().contains(
            (#[trigger] keys[j]).0@,
        ) && after.written[keys[j].0@] == (position, keys[j].1) by {
            if j < n - 1 {
                assert(!at_key(keys, last.0@, j));
            }
        }
        assert forall|key: Seq<u8>|
            group.written.dom().contains(key) && (forall|j: int|
                j < n ==> !#[trigger] at_key(keys, key, j)) implies #[trigger] after.written[key]
            == group.written[key] by {
            assert(!at_key(keys, key, n - 1));
            assert(had.written[key] == group.written[key]);
        }
        assert forall|at: int, doc: u32| #[trigger]
            deletes(after.deleted, at, doc) == (deletes(group.deleted, at, doc) || exists|j: int|
                0 <= j < n && group.written.dom().contains((#[trigger] keys[j]).0@)
                    && group.written[keys[j].0@].0 == at && group.written[keys[j].0@].1 == doc) by {
            assert(deletes(after.deleted, at, doc) == (deletes(had.deleted, at, doc) || (
            group.written.dom().contains(last.0@) && group.written[last.0@].0 == at
                && group.written[last.0@].1 == doc)));
        }
        assert forall|at: usize| #[trigger]
            after.deleted.dom().contains(at) == (group.deleted.dom().contains(at) || exists|j: int|
                0 <= j < n && group.written.dom().contains((#[trigger] keys[j]).0@)
                    && group.written[keys[j].0@].0 == at) by {
            assert(after.deleted.dom().contains(at) == (had.deleted.dom().contains(at) || (
            group.written.dom().contains(last.0@) && group.written[last.0@].0 == at)));
        }
    }
}

/// A document of a table has one key.
pub open spec fn one_key_each(tables: Seq<Map<Seq<u8>, DocId>>) -> bool {
    forall|i: int, a: Seq<u8>, b: Seq<u8>|
        0 <= i < tables.len() && #[trigger] tables[i].dom().contains(a)
            && #[trigger] tables[i].dom().contains(b) && tables[i][a] == tables[i][b] ==> a == b
}

/// A group says of a store what committing its batches in turn left.
spec fn agrees(
    group: Group,
    state: (Seq<Map<Seq<u8>, DocId>>, Seq<Set<u32>>),
    tables: Seq<Map<Seq<u8>, DocId>>,
    gone: Seq<Set<u32>>,
) -> bool {
    let base = gone.len() as int;
    let n = base + group.segments.len();
    &&& state.0.len() == n
    &&& state.1.len() == n
    &&& n <= usize::MAX
    &&& one_key_each(state.0)
    &&& forall|at: usize| #[trigger] group.deleted.dom().contains(at) ==> at < n
    &&& forall|at: int, doc: u32|
        0 <= at < base && group.deleted.dom().contains(at as usize)
            && #[trigger] gone[at].contains(doc) ==> group.deleted[at as usize].contains(doc)
    &&& forall|at: int, doc: u32|
        0 <= at < n ==> #[trigger] state.1[at].contains(doc) == (deletes(group.deleted, at, doc)
            || (at < base && gone[at].contains(doc)))
    &&& forall|key: Seq<u8>| #[trigger]
        group.written.dom().contains(key) ==> base <= group.written[key].0 < n
    &&& forall|key: Seq<u8>|
        #[trigger] answer(state.0, state.1, key, n) == if group.written.dom().contains(key) {
            Some((group.written[key].0 as int, group.written[key].1))
        } else {
            answer(tables, gone, key, base)
        }
    &&& forall|key: Seq<u8>| #[trigger]
        group.written.dom().contains(key) ==> (answer(tables, gone, key, base) matches Some(
            (at, doc),
        ) ==> state.1[at].contains(doc))
}

/// A batch with no document in it changes nothing, in a group or in turn.
proof fn lemma_nothing_added(
    group: Group,
    state: (Seq<Map<Seq<u8>, DocId>>, Seq<Set<u32>>),
    tables: Seq<Map<Seq<u8>, DocId>>,
    gone: Seq<Set<u32>>,
    part: Prepared,
    ledger: Ledger,
)
    requires
        agrees(group, state, tables, gone),
        tables.len() == gone.len(),
        accounted(ledger, tables, gone),
        stands_for(part, ledger, gone),
        ledger.docs.len() == 0,
    ensures
        agrees(with_part(group, part, gone.len() as usize), state, tables, gone),
{
    let base = gone.len() as usize;
    let n = base + group.segments.len();
    let position = n as usize;
    let named = sets(part.deletions@);
    let after = with_part(group, part, base);
    lemma_joined(group.deleted, named, base, position, named.len() as int);
    assert(named.len() == part.deletions@.len());
    assert forall|k: int| 0 <= k < named.len() implies (#[trigger] named[k]).0 < base
        && named[k].1 == gone[named[k].0 as int] by {
        let at = named[k].0 as int;
        assert(named[k].1 == hides_then(gone, ledger)[at]);
        assert(part.segment is None);
        assert(at < base);
        assert forall|doc: u32| !#[trigger] replaces(ledger, at, doc) by {
            if replaces(ledger, at, doc) {
                let key = choose|key: Seq<u8>| #[trigger]
                    ledger.mine.dom().contains(key) && answer(
                        tables,
                        gone,
                        key,
                        tables.len() as int,
                    ) == Some((at, doc));
                assert(ledger.mine[key] < ledger.docs.len());
            }
        }
        assert forall|doc: u32| hides_then(gone, ledger)[at].contains(doc) == gone[at].contains(
            doc,
        ) by {
            assert(!replaces(ledger, at, doc));
        }
        assert(hides_then(gone, ledger)[at] =~= gone[at]);
    }
    assert forall|at: int, doc: u32| #[trigger]
        deletes(after.deleted, at, doc) implies deletes(group.deleted, at, doc) || (at < base
        && gone[at].contains(doc)) by {
        if !deletes(group.deleted, at, doc) {
            let k = choose|k: int|
                0 <= k < named.len() && #[trigger] set_deletes(
                    named[k],
                    base,
                    position,
                    at,
                    doc,
                );
            assert(named[k].0 < base);
        }
    }
    assert forall|at: usize| #[trigger] after.deleted.dom().contains(at) implies at < n by {
        if !group.deleted.dom().contains(at) {
            let k = choose|k: int|
                0 <= k < named.len() && at == (if (#[trigger] named[k]).0 == base {
                    position
                } else {
                    named[k].0
                });
            assert(named[k].0 < base);
        }
    }
    assert forall|at: int, doc: u32|
        0 <= at < base && after.deleted.dom().contains(at as usize)
            && #[trigger] gone[at].contains(doc) implies after.deleted[at as usize].contains(
        doc,
    ) by {
        if group.deleted.dom().contains(at as usize) {
            assert(deletes(group.deleted, at, doc));
            assert(deletes(after.deleted, at, doc));
        } else {
            let k = choose|k: int|
                0 <= k < named.len() && at as usize == (if (#[trigger] named[k]).0 == base {
                    position
                } else {
                    named[k].0
                });
            assert(named[k].0 < base);
            assert(set_deletes(named[k], base, position, at, doc));
            assert(deletes(after.deleted, at, doc));
        }
    }
}

/// What a group deletes once another batch is in it: what it did, the documents that
/// the keys of the batch answered with, and of its segment what it replaced itself.
proof fn lemma_group_deletes(
    group: Group,
    tables: Seq<Map<Seq<u8>, DocId>>,
    gone: Seq<Set<u32>>,
    part: Prepared,
    ledger: Ledger,
    n: int,
)
    requires
        n == gone.len() + group.segments.len() < usize::MAX,
        tables.len() == gone.len(),
        accounted(ledger, tables, gone),
        stands_for(part, ledger, gone),
        ledger.docs.len() > 0,
        forall|at: usize| #[trigger] group.deleted.dom().contains(at) ==> at < n,
        forall|key: Seq<u8>| #[trigger]
            group.written.dom().contains(key) ==> gone.len() <= group.written[key].0 < n,
    ensures
        ({
            let base = gone.len() as int;
            let after = with_part(group, part, gone.len() as usize);
            &&& after.segments.len() == group.segments.len() + 1
            &&& forall|at: usize| #[trigger] after.deleted.dom().contains(at) ==> at < n + 1
            &&& forall|at: int, doc: u32|
                0 <= at < base ==> (#[trigger] deletes(after.deleted, at, doc) || gone[at].contains(
                    doc,
                )) == (deletes(group.deleted, at, doc) || gone[at].contains(doc) || replaces(
                    ledger,
                    at,
                    doc,
                ))
            &&& forall|at: int, doc: u32|
                base <= at < n ==> #[trigger] deletes(after.deleted, at, doc) == (deletes(
                    group.deleted,
                    at,
                    doc,
                ) || exists|key: Seq<u8>| #[trigger]
                    ledger.mine.dom().contains(key) && group.written.dom().contains(key)
                        && group.written[key] == (at as usize, doc))
            &&& forall|doc: u32| #[trigger]
                deletes(after.deleted, n, doc) == ledger.superseded.contains(doc)
            &&& forall|at: int, doc: u32|
                0 <= at < base && after.deleted.dom().contains(at as usize)
                    && !group.deleted.dom().contains(at as usize) && #[trigger] gone[at].contains(
                    doc,
                ) ==> deletes(after.deleted, at, doc)
            &&& forall|at: int, doc: u32| #[trigger]
                deletes(group.deleted, at, doc) ==> deletes(after.deleted, at, doc)
            &&& forall|key: Seq<u8>| #[trigger]
                after.written.dom().contains(key) == (group.written.dom().contains(key)
                    || ledger.mine.dom().contains(key))
            &&& forall|key: Seq<u8>|
                ledger.mine.dom().contains(key) ==> #[trigger] after.written[key] == (
                    n as usize,
                    ledger.mine[key],
                )
            &&& forall|key: Seq<u8>|
                group.written.dom().contains(key) && !ledger.mine.dom().contains(key)
                    ==> #[trigger] after.written[key] == group.written[key]
        }),
{
    let base = gone.len() as usize;
    let position = n as usize;
    let named = sets(part.deletions@);
    let hides = hides_then(gone, ledger);
    let keys = part.keys@;
    let mid = Group {
        deleted: all_joined(group.deleted, named, base, position, named.len() as int),
        ..group
    };
    let after = with_part(group, part, base);
    assert(named.len() == part.deletions@.len());
    assert(part.segment is Some);
    lemma_joined(group.deleted, named, base, position, named.len() as int);
    lemma_written(mid, keys, position, keys.len() as int);
    let wrote = keys_written(mid, keys, position, keys.len() as int);
    assert(after.deleted == wrote.deleted && after.written == wrote.written);
    assert forall|key: Seq<u8>| #[trigger]
        ledger.mine.dom().contains(key) == exists|j: int| #[trigger] at_key(keys, key, j) by {
        assert(keys_of(keys).dom().contains(key) == exists|j: int| #[trigger]
            at_key(keys, key, j));
    }
    assert forall|j: int| 0 <= j < keys.len() implies ledger.mine.dom().contains(
        (#[trigger] keys[j]).0@,
    ) && ledger.mine[keys[j].0@] == keys[j].1 by {
        assert(at_key(keys, keys[j].0@, j));
        let i = choose|i: int| #[trigger] at_key(keys, keys[j].0@, i);
        lemma_before_irreflexive(keys[j].0@);
        if i < j {
            assert(before(keys[i].0@, keys[j].0@));
        } else if j < i {
            assert(before(keys[j].0@, keys[i].0@));
        }
        assert(keys_of(keys)[keys[j].0@] == keys[i].1);
    }
    // What the sets of the batch delete.
    assert forall|at: int, doc: u32|
        0 <= at < base implies (#[trigger] deletes(mid.deleted, at, doc) || gone[at].contains(doc))
        == (deletes(group.deleted, at, doc) || gone[at].contains(doc) || replaces(
        ledger,
        at,
        doc,
    )) by {
        assert(hides[at].contains(doc) == (gone[at].contains(doc) || replaces(ledger, at, doc)));
        if exists|k: int|
            0 <= k < named.len() && #[trigger] set_deletes(named[k], base, position, at, doc) {
            let k = choose|k: int|
                0 <= k < named.len() && #[trigger] set_deletes(named[k], base, position, at, doc);
            assert(named[k].1 == hides[named[k].0 as int]);
        }
        if replaces(ledger, at, doc) && !gone[at].contains(doc) {
            assert(exists|k: int| 0 <= k < named.len() && (#[trigger] named[k]).0 == at) by {
                if forall|k: int| 0 <= k < named.len() ==> (#[trigger] named[k]).0 != at {
                    assert(hides[at] == gone[at]);
                }
            }
            let k = choose|k: int| 0 <= k < named.len() && (#[trigger] named[k]).0 == at;
            assert(set_deletes(named[k], base, position, at, doc));
        }
    }
    assert forall|at: int, doc: u32| base <= at < n implies #[trigger] deletes(
        mid.deleted,
        at,
        doc,
    ) == deletes(group.deleted, at, doc) by {
        if exists|k: int|
            0 <= k < named.len() && #[trigger] set_deletes(named[k], base, position, at, doc) {
            let k = choose|k: int|
                0 <= k < named.len() && #[trigger] set_deletes(named[k], base, position, at, doc);
            assert(named[k].0 <= base);
        }
    }
    assert forall|doc: u32| #[trigger]
        deletes(mid.deleted, n, doc) == ledger.superseded.contains(doc) by {
        assert(hides[base as int] == ledger.superseded);
        assert(!group.deleted.dom().contains(position));
        if exists|k: int|
            0 <= k < named.len() && #[trigger] set_deletes(named[k], base, position, n, doc) {
            let k = choose|k: int|
                0 <= k < named.len() && #[trigger] set_deletes(named[k], base, position, n, doc);
            assert(named[k].0 <= base && named[k].1 == hides[named[k].0 as int]);
        }
        if ledger.superseded.contains(doc) {
            assert(exists|k: int| 0 <= k < named.len() && (#[trigger] named[k]).0 == base) by {
                if forall|k: int| 0 <= k < named.len() ==> (#[trigger] named[k]).0 != base {
                    assert(hides[base as int] == Set::<u32>::empty());
                }
            }
            let k = choose|k: int| 0 <= k < named.len() && (#[trigger] named[k]).0 == base;
            assert(named[k].1 == hides[base as int]);
            assert(set_deletes(named[k], base, position, n, doc));
        }
    }
    // What its keys delete.
    assert forall|at: int, doc: u32| #[trigger]
        deletes(after.deleted, at, doc) == (deletes(mid.deleted, at, doc) || exists|key: Seq<u8>|
            #[trigger]
            ledger.mine.dom().contains(key) && group.written.dom().contains(key)
                && group.written[key].0 == at && group.written[key].1 == doc) by {
        if exists|j: int|
            0 <= j < keys.len() && mid.written.dom().contains((#[trigger] keys[j]).0@)
                && mid.written[keys[j].0@].0 == at && mid.written[keys[j].0@].1 == doc {
            let j = choose|j: int|
                0 <= j < keys.len() && mid.written.dom().contains((#[trigger] keys[j]).0@)
                    && mid.written[keys[j].0@].0 == at && mid.written[keys[j].0@].1 == doc;
            assert(ledger.mine.dom().contains(keys[j].0@));
        }
        if exists|key: Seq<u8>| #[trigger]
            ledger.mine.dom().contains(key) && group.written.dom().contains(key)
                && group.written[key].0 == at && group.written[key].1 == doc {
            let key = choose|key: Seq<u8>| #[trigger]
                ledger.mine.dom().contains(key) && group.written.dom().contains(key)
                    && group.written[key].0 == at && group.written[key].1 == doc;
            let j = choose|j: int| #[trigger] at_key(keys, key, j);
            assert(mid.written.dom().contains(keys[j].0@));
        }
    }
    assert forall|at: usize| #[trigger] after.deleted.dom().contains(at) implies at < n + 1 by {
        if mid.deleted.dom().contains(at) {
            if !group.deleted.dom().contains(at) {
                let k = choose|k: int|
                    0 <= k < named.len() && at == (if (#[trigger] named[k]).0 == base {
                        position
                    } else {
                        named[k].0
                    });
                assert(named[k].0 <= base);
            }
        } else {
            let j = choose|j: int|
                0 <= j < keys.len() && mid.written.dom().contains((#[trigger] keys[j]).0@)
                    && mid.written[keys[j].0@].0 == at;
            assert(group.written.dom().contains(keys[j].0@));
        }
    }
    assert forall|at: int, doc: u32|
        0 <= at < base && after.deleted.dom().contains(at as usize)
            && !group.deleted.dom().contains(at as usize) && #[trigger] gone[at].contains(
            doc,
        ) implies deletes(after.deleted, at, doc) by {
        if !mid.deleted.dom().contains(at as usize) {
            let j = choose|j: int|
                0 <= j < keys.len() && mid.written.dom().contains((#[trigger] keys[j]).0@)
                    && mid.written[keys[j].0@].0 == at as usize;
            assert(group.written.dom().contains(keys[j].0@));
        } else {
            let k = choose|k: int|
                0 <= k < named.len() && at as usize == (if (#[trigger] named[k]).0 == base {
                    position
                } else {
                    named[k].0
                });
            assert(named[k].0 <= base && named[k].1 == hides[named[k].0 as int]);
            assert(hides[at].contains(doc));
            assert(set_deletes(named[k], base, position, at, doc));
            assert(deletes(mid.deleted, at, doc));
        }
    }
    assert forall|key: Seq<u8>|
        ledger.mine.dom().contains(key) implies #[trigger] after.written[key] == (
        n as usize,
        ledger.mine[key],
    ) by {
        let j = choose|j: int| #[trigger] at_key(keys, key, j);
        assert(wrote.written[keys[j].0@] == (position, keys[j].1));
    }
    assert forall|key: Seq<u8>| #[trigger]
        after.written.dom().contains(key) == (group.written.dom().contains(key)
            || ledger.mine.dom().contains(key)) by {
        if ledger.mine.dom().contains(key) {
            let j = choose|j: int| #[trigger] at_key(keys, key, j);
            assert(j < keys.len());
        }
    }
}

/// A batch put in a group does what committing it in turn does.
proof fn lemma_turn(
    group: Group,
    state: (Seq<Map<Seq<u8>, DocId>>, Seq<Set<u32>>),
    tables: Seq<Map<Seq<u8>, DocId>>,
    gone: Seq<Set<u32>>,
    part: Prepared,
    ledger: Ledger,
    turn: Ledger,
)
    requires
        agrees(group, state, tables, gone),
        tables.len() == gone.len(),
        gone.len() + group.segments.len() < usize::MAX,
        accounted(ledger, tables, gone),
        stands_for(part, ledger, gone),
        ledger.docs.len() > 0,
        accounted(turn, state.0, state.1),
        turn.mine == ledger.mine,
        turn.superseded == ledger.superseded,
    ensures
        agrees(
            with_part(group, part, gone.len() as usize),
            (state.0.push(turn.mine), hides_then(state.1, turn)),
            tables,
            gone,
        ),
{
    let base = gone.len() as int;
    let n = base + group.segments.len();
    let after = with_part(group, part, gone.len() as usize);
    let all = state.0.push(turn.mine);
    let hides = hides_then(state.1, turn);
    lemma_group_deletes(group, tables, gone, part, ledger, n);
    assert forall|key: Seq<u8>|
        #[trigger] answer(all, hides, key, n + 1) == if after.written.dom().contains(key) {
            Some((after.written[key].0 as int, after.written[key].1))
        } else {
            answer(tables, gone, key, base)
        } by {
        law_a_batch_answers_to_its_keys(turn, state.0, state.1, key);
        assert(answer(state.0, state.1, key, n) == if group.written.dom().contains(key) {
            Some((group.written[key].0 as int, group.written[key].1))
        } else {
            answer(tables, gone, key, base)
        });
        assert(after.written.dom().contains(key) == (group.written.dom().contains(key)
            || ledger.mine.dom().contains(key)));
        if ledger.mine.dom().contains(key) {
            assert(after.written[key] == (n as usize, ledger.mine[key]));
        } else if group.written.dom().contains(key) {
            assert(after.written[key] == group.written[key]);
        }
    }
    assert forall|at: int, doc: u32| 0 <= at < n + 1 implies #[trigger] hides[at].contains(doc) == (
    deletes(after.deleted, at, doc) || (at < base && gone[at].contains(doc))) by {
        if at < n {
            assert(hides[at].contains(doc) == (state.1[at].contains(doc) || replaces(
                turn,
                at,
                doc,
            )));
            assert(state.1[at].contains(doc) == (deletes(group.deleted, at, doc) || (at < base
                && gone[at].contains(doc))));
            if replaces(turn, at, doc) {
                let key = choose|key: Seq<u8>| #[trigger]
                    turn.mine.dom().contains(key) && answer(state.0, state.1, key, n) == Some(
                        (at, doc),
                    );
                lemma_answer_in(tables, gone, key, base);
                if at < base {
                    assert(!group.written.dom().contains(key));
                    assert(ledger.mine.dom().contains(key));
                    assert(replaces(ledger, at, doc));
                } else {
                    assert(group.written.dom().contains(key));
                    assert(ledger.mine.dom().contains(key));
                    assert(group.written[key] == (at as usize, doc));
                }
            }
            if at < base {
                if replaces(ledger, at, doc) {
                    let key = choose|key: Seq<u8>| #[trigger]
                        ledger.mine.dom().contains(key) && answer(tables, gone, key, base) == Some(
                            (at, doc),
                        );
                    if !group.written.dom().contains(key) {
                        assert(answer(state.0, state.1, key, n) == Some((at, doc)));
                        assert(turn.mine.dom().contains(key));
                        assert(replaces(turn, at, doc));
                    }
                }
            } else if exists|key: Seq<u8>| #[trigger]
                ledger.mine.dom().contains(key) && group.written.dom().contains(key)
                    && group.written[key] == (at as usize, doc) {
                let key = choose|key: Seq<u8>| #[trigger]
                    ledger.mine.dom().contains(key) && group.written.dom().contains(key)
                        && group.written[key] == (at as usize, doc);
                assert(answer(state.0, state.1, key, n) == Some((at, doc)));
                assert(turn.mine.dom().contains(key));
                assert(replaces(turn, at, doc));
            }
        } else {
            assert(hides[n] == turn.superseded);
        }
    }
    assert forall|at: int, doc: u32|
        0 <= at < base && after.deleted.dom().contains(at as usize)
            && #[trigger] gone[at].contains(doc) implies after.deleted[at as usize].contains(
        doc,
    ) by {
        if group.deleted.dom().contains(at as usize) {
            assert(deletes(group.deleted, at, doc));
            assert(deletes(after.deleted, at, doc));
        } else {
            assert(deletes(after.deleted, at, doc));
        }
    }
    assert forall|key: Seq<u8>| #[trigger] after.written.dom().contains(key) implies {
        &&& base <= after.written[key].0 < n + 1
        &&& answer(tables, gone, key, base) matches Some((at, doc)) ==> hides[at].contains(doc)
    } by {
        lemma_answer_in(tables, gone, key, base);
        if ledger.mine.dom().contains(key) {
            assert(after.written[key] == (n as usize, ledger.mine[key]));
            if let Some((at, doc)) = answer(tables, gone, key, base) {
                assert(replaces(ledger, at, doc));
                assert(hides[at].contains(doc) == (deletes(after.deleted, at, doc)
                    || gone[at].contains(doc)));
                assert(deletes(after.deleted, at, doc) || gone[at].contains(doc));
            }
        } else {
            assert(group.written.dom().contains(key));
            assert(after.written[key] == group.written[key]);
            if let Some((at, doc)) = answer(tables, gone, key, base) {
                assert(state.1[at].contains(doc));
                assert(hides[at].contains(doc) == (state.1[at].contains(doc) || replaces(
                    turn,
                    at,
                    doc,
                )));
            }
        }
    }
    assert(one_key_each(all)) by {
        assert forall|i: int, a: Seq<u8>, b: Seq<u8>|
            0 <= i < all.len() && #[trigger] all[i].dom().contains(a)
                && #[trigger] all[i].dom().contains(b) && all[i][a] == all[i][b] implies a == b by {
            if i < n {
                assert(state.0[i].dom().contains(a) && state.0[i].dom().contains(b));
            } else {
                assert(turn.mine.dom().contains(a) && turn.mine.dom().contains(b));
            }
        }
    }
}

/// The same batches, worked out once over one store and once in turn: they hold the
/// same documents under the same keys.
pub open spec fn same_batches(ledgers: Seq<Ledger>, turns: Seq<Ledger>) -> bool {
    &&& ledgers.len() == turns.len()
    &&& forall|p: int|
        0 <= p < ledgers.len() ==> {
            &&& (#[trigger] turns[p]).docs.len() == ledgers[p].docs.len()
            &&& turns[p].mine == ledgers[p].mine
            &&& turns[p].superseded == ledgers[p].superseded
        }
}

proof fn lemma_agrees(
    parts: Seq<Prepared>,
    ledgers: Seq<Ledger>,
    turns: Seq<Ledger>,
    tables: Seq<Map<Seq<u8>, DocId>>,
    gone: Seq<Set<u32>>,
    n: int,
)
    requires
        tables.len() == gone.len(),
        gone.len() + parts.len() < usize::MAX,
        0 <= n <= parts.len() == ledgers.len(),
        one_key_each(tables),
        same_batches(ledgers, turns),
        forall|p: int|
            0 <= p < parts.len() ==> stands_for(#[trigger] parts[p], ledgers[p], gone),
        forall|p: int| 0 <= p < parts.len() ==> accounted(#[trigger] ledgers[p], tables, gone),
        forall|p: int|
            0 <= p < parts.len() ==> accounted(
                #[trigger] turns[p],
                in_turn(tables, gone, turns, p).0,
                in_turn(tables, gone, turns, p).1,
            ),
    ensures
        agrees(
            group_of(parts, gone.len() as usize, n),
            in_turn(tables, gone, turns, n),
            tables,
            gone,
        ),
        group_of(parts, gone.len() as usize, n).segments.len() <= n,
        tables_with(tables, parts, n) == in_turn(tables, gone, turns, n).0,
    decreases n,
{
    let base = gone.len() as usize;
    if n > 0 {
        lemma_agrees(parts, ledgers, turns, tables, gone, n - 1);
        let was = group_of(parts, base, n - 1);
        let state = in_turn(tables, gone, turns, n - 1);
        assert(stands_for(parts[n - 1], ledgers[n - 1], gone));
        assert(accounted(ledgers[n - 1], tables, gone));
        assert(accounted(turns[n - 1], state.0, state.1));
        assert(turns[n - 1].docs.len() == ledgers[n - 1].docs.len());
        if ledgers[n - 1].docs.len() > 0 {
            lemma_turn(was, state, tables, gone, parts[n - 1], ledgers[n - 1], turns[n - 1]);
            lemma_group_deletes(
                was,
                tables,
                gone,
                parts[n - 1],
                ledgers[n - 1],
                (gone.len() + was.segments.len()) as int,
            );
        } else {
            lemma_nothing_added(was, state, tables, gone, parts[n - 1], ledgers[n - 1]);
        }
    }
}

/// A group of batches gives the store that the same batches committed one at a time
/// give: the same key tables in the same places, and the same documents deleted, so
/// that every key answers the same.
pub proof fn law_a_group_is_its_batches_in_turn(
    parts: Seq<Prepared>,
    ledgers: Seq<Ledger>,
    turns: Seq<Ledger>,
    tables: Seq<Map<Seq<u8>, DocId>>,
    gone: Seq<Set<u32>>,
)
    requires
        tables.len() == gone.len(),
        gone.len() + parts.len() < usize::MAX,
        parts.len() == ledgers.len(),
        one_key_each(tables),
        same_batches(ledgers, turns),
        // Each batch of the group was worked out over the store as it is.
        forall|p: int|
            0 <= p < parts.len() ==> stands_for(#[trigger] parts[p], ledgers[p], gone),
        forall|p: int| 0 <= p < parts.len() ==> accounted(#[trigger] ledgers[p], tables, gone),
        // Each batch in turn was worked out over the store that the one before left.
        forall|p: int|
            0 <= p < parts.len() ==> accounted(
                #[trigger] turns[p],
                in_turn(tables, gone, turns, p).0,
                in_turn(tables, gone, turns, p).1,
            ),
    ensures
        ({
            let n = parts.len() as int;
            let group = group_of(parts, gone.len() as usize, n);
            &&& tables_with(tables, parts, n) == in_turn(tables, gone, turns, n).0
            &&& gone_with(gone, group) == in_turn(tables, gone, turns, n).1
        }),
{
    let n = parts.len() as int;
    let group = group_of(parts, gone.len() as usize, n);
    let state = in_turn(tables, gone, turns, n);
    lemma_agrees(parts, ledgers, turns, tables, gone, n);
    let all = gone_with(gone, group);
    assert forall|at: int| 0 <= at < all.len() implies all[at] == state.1[at] by {
        assert forall|doc: u32| all[at].contains(doc) == state.1[at].contains(doc) by {
            assert(state.1[at].contains(doc) == (deletes(group.deleted, at, doc) || (at
                < gone.len() && gone[at].contains(doc))));
        }
        assert(all[at] =~= state.1[at]);
    }
    assert(all =~= state.1);
}

/// A batch worked out again over another store: it replaces what its keys answer
/// with there.
spec fn retaken(
    ledger: Ledger,
    state: (Seq<Map<Seq<u8>, DocId>>, Seq<Set<u32>>),
) -> Ledger {
    let n = state.0.len() as int;
    Ledger {
        replaced: Seq::new(
            state.0.len(),
            |at: int|
                Some(
                    Set::new(
                        |doc: u32|
                            exists|key: Seq<u8>| #[trigger]
                                ledger.mine.dom().contains(key) && answer(
                                    state.0,
                                    state.1,
                                    key,
                                    n,
                                ) == Some((at, doc)),
                    ),
                ),
        ),
        ..ledger
    }
}

/// The first `n` batches worked out again, each over the store the one before left.
spec fn retaken_in_turn(
    tables: Seq<Map<Seq<u8>, DocId>>,
    gone: Seq<Set<u32>>,
    ledgers: Seq<Ledger>,
    n: int,
) -> Seq<Ledger>
    decreases n,
{
    if n <= 0 {
        Seq::empty()
    } else {
        let had = retaken_in_turn(tables, gone, ledgers, n - 1);
        had.push(retaken(ledgers[n - 1], in_turn(tables, gone, had, n - 1)))
    }
}

proof fn lemma_in_turn_same(
    tables: Seq<Map<Seq<u8>, DocId>>,
    gone: Seq<Set<u32>>,
    a: Seq<Ledger>,
    b: Seq<Ledger>,
    n: int,
)
    requires
        0 <= n <= a.len(),
        n <= b.len(),
        forall|p: int| 0 <= p < n ==> a[p] == b[p],
    ensures
        in_turn(tables, gone, a, n) == in_turn(tables, gone, b, n),
    decreases n,
{
    if n > 0 {
        lemma_in_turn_same(tables, gone, a, b, n - 1);
    }
}

proof fn lemma_retaken(
    tables: Seq<Map<Seq<u8>, DocId>>,
    gone: Seq<Set<u32>>,
    ledgers: Seq<Ledger>,
    n: int,
)
    requires
        0 <= n <= ledgers.len(),
        tables.len() == gone.len(),
        forall|p: int| 0 <= p < ledgers.len() ==> accounted(#[trigger] ledgers[p], tables, gone),
    ensures
        ({
            let turns = retaken_in_turn(tables, gone, ledgers, n);
            &&& turns.len() == n
            &&& in_turn(tables, gone, turns, n).0.len() == in_turn(tables, gone, turns, n).1.len()
            &&& forall|p: int|
                0 <= p < n ==> {
                    &&& (#[trigger] turns[p]).docs.len() == ledgers[p].docs.len()
                    &&& turns[p].mine == ledgers[p].mine
                    &&& turns[p].superseded == ledgers[p].superseded
                    &&& accounted(
                        turns[p],
                        in_turn(tables, gone, turns, p).0,
                        in_turn(tables, gone, turns, p).1,
                    )
                }
        }),
    decreases n,
{
    if n > 0 {
        lemma_retaken(tables, gone, ledgers, n - 1);
        let had = retaken_in_turn(tables, gone, ledgers, n - 1);
        let turns = retaken_in_turn(tables, gone, ledgers, n);
        let state = in_turn(tables, gone, had, n - 1);
        let ledger = ledgers[n - 1];
        let turn = retaken(ledger, state);
        let m = state.0.len() as int;
        assert(accounted(ledger, tables, gone));
        assert(accounted(turn, state.0, state.1)) by {
            assert forall|key: Seq<u8>| #[trigger] turn.mine.dom().contains(key) implies {
                &&& turn.mine[key] < turn.docs.len()
                &&& !turn.superseded.contains(turn.mine[key])
                &&& answer(state.0, state.1, key, m) matches Some((at, doc)) ==> replaces(
                    turn,
                    at,
                    doc,
                )
            } by {
                lemma_answer_in(state.0, state.1, key, m);
                assert(ledger.mine.dom().contains(key));
            }
            assert forall|at: int, doc: DocId|
                0 <= at < m && #[trigger] replaces(turn, at, doc) implies exists|key: Seq<u8>|
                #[trigger]
                turn.mine.dom().contains(key) && answer(state.0, state.1, key, m) == Some(
                    (at, doc),
                ) by {
                let key = choose|key: Seq<u8>| #[trigger]
                    ledger.mine.dom().contains(key) && answer(state.0, state.1, key, m) == Some(
                        (at, doc),
                    );
                assert(turn.mine.dom().contains(key));
            }
        }
        assert forall|p: int| 0 <= p < n implies {
            &&& (#[trigger] turns[p]).docs.len() == ledgers[p].docs.len()
            &&& turns[p].mine == ledgers[p].mine
            &&& turns[p].superseded == ledgers[p].superseded
            &&& accounted(
                turns[p],
                in_turn(tables, gone, turns, p).0,
                in_turn(tables, gone, turns, p).1,
            )
        } by {
            lemma_in_turn_same(tables, gone, had, turns, p);
            if p < n - 1 {
                assert(turns[p] == had[p]);
            }
        }
        lemma_in_turn_same(tables, gone, had, turns, n - 1);
    }
}

/// The copy of a key that a group is left with is the one that answers to it: it is
/// not deleted, and what the key answered with before is. A key that no batch of the
/// group writes answers with what it did.
pub proof fn law_the_copy_that_wins_is_kept(
    parts: Seq<Prepared>,
    ledgers: Seq<Ledger>,
    tables: Seq<Map<Seq<u8>, DocId>>,
    gone: Seq<Set<u32>>,
    key: Seq<u8>,
)
    requires
        tables.len() == gone.len(),
        gone.len() + parts.len() < usize::MAX,
        parts.len() == ledgers.len(),
        one_key_each(tables),
        forall|p: int|
            0 <= p < parts.len() ==> stands_for(#[trigger] parts[p], ledgers[p], gone),
        forall|p: int| 0 <= p < parts.len() ==> accounted(#[trigger] ledgers[p], tables, gone),
    ensures
        ({
            let n = parts.len() as int;
            let base = gone.len() as int;
            let group = group_of(parts, gone.len() as usize, n);
            let hides = gone_with(gone, group);
            let now = answer(tables_with(tables, parts, n), hides, key, hides.len() as int);
            if group.written.dom().contains(key) {
                &&& now == Some((group.written[key].0 as int, group.written[key].1))
                &&& !hides[group.written[key].0 as int].contains(group.written[key].1)
                &&& answer(tables, gone, key, base) matches Some((at, doc)) ==> hides[at].contains(
                    doc,
                )
            } else {
                now == answer(tables, gone, key, base)
            }
        }),
{
    let n = parts.len() as int;
    let base = gone.len() as int;
    let turns = retaken_in_turn(tables, gone, ledgers, n);
    lemma_retaken(tables, gone, ledgers, n);
    let group = group_of(parts, gone.len() as usize, n);
    let state = in_turn(tables, gone, turns, n);
    lemma_agrees(parts, ledgers, turns, tables, gone, n);
    law_a_group_is_its_batches_in_turn(parts, ledgers, turns, tables, gone);
    assert(answer(state.0, state.1, key, base + group.segments.len())
        == if group.written.dom().contains(key) {
        Some((group.written[key].0 as int, group.written[key].1))
    } else {
        answer(tables, gone, key, base)
    });
    lemma_answer_in(state.0, state.1, key, base + group.segments.len());
}

} // verus!
