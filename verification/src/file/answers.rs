//! What a key answers with, and what a fold makes of it.
use super::view::Lookup;
use crate::compact::{lemma_live_grows, live_before, named, named_in, place, Source};
use crate::count::lemma_count_some;
use crate::DocId;
use vstd::prelude::*;

verus! {

/// The segment and the document a key names: of the first `n` segments the newest
/// whose table has the key decides, and a document it hides is no answer.
pub open spec fn answer(
    tables: Seq<Map<Seq<u8>, DocId>>,
    gone: Seq<Set<u32>>,
    key: Seq<u8>,
    n: int,
) -> Option<(int, DocId)>
    decreases n,
{
    if n <= 0 {
        None
    } else if tables[n - 1].dom().contains(key) {
        let doc = tables[n - 1][key];
        if gone[n - 1].contains(doc) {
            None
        } else {
            Some((n - 1, doc))
        }
    } else {
        answer(tables, gone, key, n - 1)
    }
}

/// The segment at a place is the newest of the first `n` that has the key.
pub open spec fn decides(
    tables: Seq<Map<Seq<u8>, DocId>>,
    key: Seq<u8>,
    n: int,
    at: int,
) -> bool {
    &&& 0 <= at < n
    &&& tables[at].dom().contains(key)
    &&& forall|later: int| at < later < n ==> !(#[trigger] tables[later]).dom().contains(key)
}

/// The newest segment that has the key decides, and where none has it there is no
/// answer.
pub proof fn lemma_decides(
    tables: Seq<Map<Seq<u8>, DocId>>,
    gone: Seq<Set<u32>>,
    key: Seq<u8>,
    n: int,
)
    ensures
        forall|at: int| #[trigger]
            decides(tables, key, n, at) ==> answer(tables, gone, key, n) == if gone[at].contains(
                tables[at][key],
            ) {
                None
            } else {
                Some((at, tables[at][key]))
            },
        (forall|at: int| 0 <= at < n ==> !(#[trigger] tables[at]).dom().contains(key)) ==> answer(
            tables,
            gone,
            key,
            n,
        ) is None,
        (exists|at: int| 0 <= at < n && (#[trigger] tables[at]).dom().contains(key)) ==> exists|
            at: int,
        | #[trigger] decides(tables, key, n, at),
    decreases n,
{
    if n > 0 {
        lemma_decides(tables, gone, key, n - 1);
        if tables[n - 1].dom().contains(key) {
            assert(decides(tables, key, n, n - 1));
            assert forall|at: int| #[trigger] decides(tables, key, n, at) implies at == n - 1 by {
                if at < n - 1 {
                    assert(!tables[n - 1].dom().contains(key));
                }
            }
        } else {
            assert forall|at: int| #[trigger]
                decides(tables, key, n, at) implies decides(tables, key, n - 1, at) by {}
            if exists|at: int| 0 <= at < n && (#[trigger] tables[at]).dom().contains(key) {
                let at = choose|at: int|
                    0 <= at < n && (#[trigger] tables[at]).dom().contains(key);
                assert(at < n - 1);
                let found = choose|at: int| #[trigger] decides(tables, key, n - 1, at);
                assert(decides(tables, key, n, found));
            }
        }
    }
}

/// The tables of a lookup, by what each key names.
pub open spec fn tables_are(looks: Lookup<'_>, tables: Seq<Map<Seq<u8>, DocId>>) -> bool {
    &&& tables.len() == looks.keys@.len()
    &&& forall|at: int, key: Seq<u8>, doc: DocId|
        0 <= at < tables.len() ==> (#[trigger] looks.names(at, key, doc) == (
        tables[at].dom().contains(key) && tables[at][key] == doc))
}

/// What each segment of a lookup hides.
pub open spec fn hidden_of(looks: Lookup<'_>) -> Seq<Set<u32>> {
    looks.deleted@.map_values(
        |deleted: Option<crate::bitmap::Bitmap>|
            match deleted {
                Some(set) => set@,
                None => Set::<u32>::empty(),
            },
    )
}

/// A lookup answers with what the newest table that has the key names, and with
/// nothing where that is deleted or no table has it.
pub proof fn law_a_lookup_gives_the_answer(
    looks: Lookup<'_>,
    tables: Seq<Map<Seq<u8>, DocId>>,
    key: Seq<u8>,
    found: Option<(usize, DocId)>,
)
    requires
        looks.wf(),
        looks.sorted(),
        tables_are(looks, tables),
        looks.answers(key, 0, found),
    ensures
        match answer(tables, hidden_of(looks), key, tables.len() as int) {
            Some((at, doc)) => found == Some((at as usize, doc)),
            None => found is None,
        },
{
    let n = tables.len() as int;
    let gone = hidden_of(looks);
    lemma_decides(tables, gone, key, n);
    if exists|at: int| 0 <= at < n && (#[trigger] tables[at]).dom().contains(key) {
        let at = choose|at: int| #[trigger] decides(tables, key, n, at);
        let doc = tables[at][key];
        assert(looks.names(at, key, doc));
        assert(looks.newest(key, 0, at)) by {
            assert forall|later: int, d: DocId|
                at < later < looks.keys@.len() implies !#[trigger] looks.names(later, key, d) by {
                assert(!tables[later].dom().contains(key));
            }
        }
        assert(looks.gone(at, doc) == gone[at].contains(doc));
    } else {
        assert forall|at: int, d: DocId| 0 <= at < looks.keys@.len() implies !#[trigger] looks.names(
            at,
            key,
            d,
        ) by {
            assert(!tables[at].dom().contains(key));
        }
    }
}

// ---------------------------------------------------------------------------
// A fold.
// ---------------------------------------------------------------------------

/// The keys of a source are those of a table.
pub open spec fn source_table(source: Source, table: Map<Seq<u8>, DocId>) -> bool {
    match source.index.keys {
        Some(keys) => {
            &&& forall|i: int|
                0 <= i < keys@.len() ==> table.dom().contains((#[trigger] keys@[i]).0@)
                    && table[keys@[i].0@] == keys@[i].1
            &&& forall|key: Seq<u8>| #[trigger]
                table.dom().contains(key) ==> exists|i: int|
                    0 <= i < keys@.len() && (#[trigger] keys@[i]).0@ == key
        },
        None => table == Map::<Seq<u8>, DocId>::empty(),
    }
}

/// A source has the key for a document that is live.
pub open spec fn live_under(source: Source, table: Map<Seq<u8>, DocId>, key: Seq<u8>) -> bool {
    table.dom().contains(key) && source.live(table[key] as int)
}

proof fn lemma_named_in(
    map: Map<Seq<u8>, DocId>,
    sources: Seq<Source>,
    source: int,
    table: Map<Seq<u8>, DocId>,
    keys: Seq<(Vec<u8>, DocId)>,
    n: int,
    key: Seq<u8>,
)
    requires
        0 <= n <= keys.len(),
        forall|i: int|
            0 <= i < keys.len() ==> table.dom().contains((#[trigger] keys[i]).0@)
                && table[keys[i].0@] == keys[i].1,
    ensures
        ({
            let now = named_in(map, sources, source, keys, n);
            if exists|i: int| 0 <= i < n && (#[trigger] keys[i]).0@ == key && sources[source].live(
                keys[i].1 as int,
            ) {
                now.dom().contains(key) && now[key] == place(
                    sources,
                    source,
                    table[key] as int,
                ) as u32
            } else {
                now.dom().contains(key) == map.dom().contains(key) && (map.dom().contains(key)
                    ==> now[key] == map[key])
            }
        }),
    decreases n,
{
    if n > 0 {
        lemma_named_in(map, sources, source, table, keys, n - 1, key);
        let (last, doc) = keys[n - 1];
        assert(table[last@] == doc);
        if last@ == key && sources[source].live(doc as int) {
            assert(keys[n - 1].0@ == key);
        } else {
            assert((exists|i: int|
                0 <= i < n && (#[trigger] keys[i]).0@ == key && sources[source].live(
                    keys[i].1 as int,
                )) == (exists|i: int|
                0 <= i < n - 1 && (#[trigger] keys[i]).0@ == key && sources[source].live(
                    keys[i].1 as int,
                ))) by {
                if exists|i: int|
                    0 <= i < n && (#[trigger] keys[i]).0@ == key && sources[source].live(
                        keys[i].1 as int,
                    ) {
                    let i = choose|i: int|
                        0 <= i < n && (#[trigger] keys[i]).0@ == key && sources[source].live(
                            keys[i].1 as int,
                        );
                    assert(i < n - 1);
                }
            }
        }
    }
}

/// The merged table has a key exactly where a source has it for a live document,
/// and of several such sources the last one's document is the one it names.
proof fn lemma_named(
    sources: Seq<Source>,
    tables: Seq<Map<Seq<u8>, DocId>>,
    n: int,
    key: Seq<u8>,
)
    requires
        0 <= n <= sources.len() == tables.len(),
        forall|s: int|
            0 <= s < sources.len() ==> source_table(#[trigger] sources[s], tables[s]),
    ensures
        named(sources, n).dom().contains(key) ==> exists|s: int|
            0 <= s < n && live_under(#[trigger] sources[s], tables[s], key),
        forall|s: int|
            0 <= s < n && live_under(#[trigger] sources[s], tables[s], key) && (forall|t: int|
                s < t < n ==> !live_under(#[trigger] sources[t], tables[t], key))
                ==> named(sources, n).dom().contains(key) && named(sources, n)[key] == place(
                sources,
                s,
                tables[s][key] as int,
            ) as u32,
    decreases n,
{
    if n > 0 {
        lemma_named(sources, tables, n - 1, key);
        let source = sources[n - 1];
        let table = tables[n - 1];
        assert(source_table(source, table));
        let had = named(sources, n - 1);
        match source.index.keys {
            Some(keys) => {
                lemma_named_in(
                    had,
                    sources,
                    n - 1,
                    table,
                    keys@,
                    keys@.len() as int,
                    key,
                );
                assert(live_under(source, table, key) == (exists|i: int|
                    0 <= i < keys@.len() && (#[trigger] keys@[i]).0@ == key && source.live(
                        keys@[i].1 as int,
                    ))) by {
                    if live_under(source, table, key) {
                        let i = choose|i: int|
                            0 <= i < keys@.len() && (#[trigger] keys@[i]).0@ == key;
                        assert(table[keys@[i].0@] == keys@[i].1);
                    }
                }
            },
            None => {
                assert(!live_under(source, table, key));
            },
        }
        if live_under(source, table, key) {
            assert forall|s: int|
                0 <= s < n && live_under(#[trigger] sources[s], tables[s], key) && (forall|t: int|
                    s < t < n ==> !live_under(#[trigger] sources[t], tables[t], key)) implies s == n
                - 1 by {
                if s < n - 1 {
                    assert(!live_under(sources[n - 1], tables[n - 1], key));
                }
            }
        } else {
            assert(named(sources, n).dom().contains(key) == had.dom().contains(key));
            assert forall|s: int|
                0 <= s < n && live_under(#[trigger] sources[s], tables[s], key) && (forall|t: int|
                    s < t < n ==> !live_under(#[trigger] sources[t], tables[t], key)) implies {
                &&& s < n - 1
                &&& named(sources, n)[key] == had[key]
                &&& had.dom().contains(key)
                &&& had[key] == place(sources, s, tables[s][key] as int) as u32
            } by {}
        }
    }
}

/// A sequence with what lies from `start` up to `end` taken out and, where there is
/// one, something put in its place.
pub open spec fn swapped<T>(all: Seq<T>, start: int, end: int, one: Option<T>) -> Seq<T> {
    match one {
        Some(it) => all.take(start).push(it) + all.skip(end),
        None => all.take(start) + all.skip(end),
    }
}

/// Where a document is once the segments from `start` up to `end` are folded into
/// one, or into none where no document survived.
pub open spec fn carried_to(
    sources: Seq<Source>,
    start: int,
    end: int,
    at: int,
    doc: DocId,
) -> (int, DocId) {
    let one: int = if live_before(sources, end - start) == 0 {
        0
    } else {
        1
    };
    if at < start {
        (at, doc)
    } else if at < end {
        (start, place(sources, at - start, doc as int) as u32)
    } else {
        (at - (end - start) + one, doc)
    }
}

/// A fold changes no answer: a key answers with the document it did, wherever the
/// fold put it, and one that answered with nothing still does.
///
/// A key whose newest copy is deleted while an older one is not is left out: its
/// older copy can be the newest once the deleted one is dropped. A batch deletes
/// the copy it replaces, so none of its keys is such a one.
pub proof fn law_a_fold_keeps_what_a_key_answers(
    tables: Seq<Map<Seq<u8>, DocId>>,
    gone: Seq<Set<u32>>,
    sources: Seq<Source>,
    start: int,
    end: int,
    key: Seq<u8>,
)
    requires
        0 <= start < end <= tables.len() == gone.len(),
        sources.len() == end - start,
        live_before(sources, sources.len() as int) <= u32::MAX,
        forall|s: int|
            0 <= s < sources.len() ==> {
                &&& source_table(#[trigger] sources[s], tables[start + s])
                &&& sources[s].deleted@ == gone[start + s]
                &&& forall|k: Seq<u8>| #[trigger]
                    tables[start + s].dom().contains(k) ==> tables[start + s][k]
                        < sources[s].index.lengths@.len()
            },
        answer(tables, gone, key, tables.len() as int) is None ==> forall|i: int|
            0 <= i < tables.len() && (#[trigger] tables[i]).dom().contains(key)
                ==> gone[i].contains(tables[i][key]),
    ensures
        ({
            let survived = live_before(sources, end - start) > 0;
            let table = if survived {
                Some(named(sources, end - start))
            } else {
                None
            };
            let hides = if survived {
                Some(Set::<u32>::empty())
            } else {
                None
            };
            let now_tables = swapped(tables, start, end, table);
            let now_gone = swapped(gone, start, end, hides);
            answer(now_tables, now_gone, key, now_tables.len() as int) == match answer(
                tables,
                gone,
                key,
                tables.len() as int,
            ) {
                Some((at, doc)) => Some(carried_to(sources, start, end, at, doc)),
                None => None,
            }
        }),
{
    let n = tables.len() as int;
    let m = end - start;
    let run = tables.subrange(start, end);
    let merged = named(sources, m);
    let survived = live_before(sources, m) > 0;
    let table = if survived {
        Some(merged)
    } else {
        None
    };
    let hides = if survived {
        Some(Set::<u32>::empty())
    } else {
        None
    };
    let one = if survived {
        1int
    } else {
        0int
    };
    let now = swapped(tables, start, end, table);
    let then = swapped(gone, start, end, hides);
    let len = now.len() as int;
    assert(len == n - m + one);
    assert forall|s: int| 0 <= s < sources.len() implies source_table(
        #[trigger] sources[s],
        run[s],
    ) by {
        assert(run[s] == tables[start + s]);
    }
    assert forall|s: int| 0 <= s < sources.len() implies live_under(
        #[trigger] sources[s],
        run[s],
        key,
    ) == (tables[start + s].dom().contains(key) && !gone[start + s].contains(
        tables[start + s][key],
    )) by {
        assert(run[s] == tables[start + s]);
    }
    lemma_named(sources, run, m, key);
    lemma_decides(tables, gone, key, n);
    lemma_decides(now, then, key, len);
    assert forall|i: int| 0 <= i < start implies (#[trigger] now[i]) == tables[i] && then[i]
        == gone[i] by {}
    assert forall|i: int| end <= i < n implies #[trigger] tables[i] == now[i - m + one] && gone[i]
        == then[i - m + one] by {}
    if exists|at: int| 0 <= at < n && (#[trigger] tables[at]).dom().contains(key) {
        let at = choose|at: int| #[trigger] decides(tables, key, n, at);
        let doc = tables[at][key];
        if gone[at].contains(doc) {
            // Every copy is deleted, so the merged table has none of them.
            assert(answer(tables, gone, key, n) is None);
            assert(!merged.dom().contains(key)) by {
                if merged.dom().contains(key) {
                    let s = choose|s: int|
                        0 <= s < m && live_under(#[trigger] sources[s], run[s], key);
                    assert(tables[start + s].dom().contains(key));
                }
            }
            if exists|i: int| 0 <= i < len && (#[trigger] now[i]).dom().contains(key) {
                let i = choose|i: int| #[trigger] decides(now, key, len, i);
                if i < start {
                    assert(tables[i].dom().contains(key));
                } else {
                    assert(i >= start + one);
                    let was = i + m - one;
                    assert(tables[was].dom().contains(key));
                }
            }
        } else if at < start {
            assert(!merged.dom().contains(key)) by {
                if merged.dom().contains(key) {
                    let s = choose|s: int|
                        0 <= s < m && live_under(#[trigger] sources[s], run[s], key);
                    assert(!tables[start + s].dom().contains(key));
                }
            }
            assert(decides(now, key, len, at)) by {
                assert forall|later: int| at < later < len implies !(
                #[trigger] now[later]).dom().contains(key) by {
                    if later < start {
                        assert(!tables[later].dom().contains(key));
                    } else if later >= start + one {
                        assert(!tables[later + m - one].dom().contains(key));
                    }
                }
            }
        } else if at < end {
            let s = at - start;
            assert(live_under(sources[s], run[s], key));
            assert forall|t: int| s < t < m implies !live_under(
                #[trigger] sources[t],
                run[t],
                key,
            ) by {
                assert(!tables[start + t].dom().contains(key));
            }
            assert(merged.dom().contains(key));
            lemma_some_live(sources, s, doc as int, m);
            assert(decides(now, key, len, start)) by {
                assert forall|later: int| start < later < len implies !(
                #[trigger] now[later]).dom().contains(key) by {
                    assert(!tables[later + m - one].dom().contains(key));
                }
            }
        } else {
            assert(tables[at] == now[at - m + one]);
            assert(decides(now, key, len, at - m + one)) by {
                assert forall|later: int| at - m + one < later < len implies !(
                #[trigger] now[later]).dom().contains(key) by {
                    assert(!tables[later + m - one].dom().contains(key));
                }
            }
        }
    } else {
        assert(!merged.dom().contains(key)) by {
            if merged.dom().contains(key) {
                let s = choose|s: int|
                    0 <= s < m && live_under(#[trigger] sources[s], run[s], key);
                assert(!tables[start + s].dom().contains(key));
            }
        }
        assert forall|i: int| 0 <= i < len implies !(#[trigger] now[i]).dom().contains(key) by {
            if i < start {
                assert(!tables[i].dom().contains(key));
            } else if i >= start + one {
                assert(!tables[i + m - one].dom().contains(key));
            }
        }
    }
}

/// A live document of a source is one the merge numbers.
proof fn lemma_some_live(sources: Seq<Source>, s: int, doc: int, n: int)
    requires
        0 <= s < n <= sources.len(),
        sources[s].live(doc),
    ensures
        live_before(sources, n) > 0,
{
    let all = sources[s].index.lengths@.len() as int;
    let lives = sources[s].lives();
    assert(lives(doc));
    lemma_count_some(lives, 0, all, doc);
    lemma_live_grows(sources, s + 1, n);
}

} // verus!
