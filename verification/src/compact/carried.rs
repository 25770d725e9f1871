//! What of each document a merge carries, and where to.
use super::{
    carried, carry, dropped_of, entry_at, held, keys_in, law_numbering_is_ordered, lemma_place,
    lengths_of, live_before, live_fields, live_lengths, merged_from, named, named_in, place, shown,
    shown_all, source_fields, sum, survivors, table_of, u32s_bytes, Merged, Moved, Source, GONE,
};
use crate::codec::{le_bytes, le_value, lemma_le_bytes, lemma_le_unfold};
use crate::count::{count, lemma_count_bound};
use crate::error::Error;
use crate::index::laws::{in_doc_order, law_norms_say_how_long_each_document_is, posted};
use crate::index::reader::{bytes_of, index_read};
use crate::index::{norms_of, Entry};
use crate::keys::{
    ascending, blob_of, law_written_keys_are_read, lemma_words, table_bytes, word_at, words,
};
use crate::length::rounds_to;
use crate::order::{before, lemma_before_irreflexive};
use crate::segment::{kind, Segment};
use crate::DocId;
use vstd::prelude::*;

verus! {

// ---------------------------------------------------------------------------
// Where a document goes.
// ---------------------------------------------------------------------------

/// The document that has a number among those of a range that satisfy `f`.
proof fn lemma_numbered(f: spec_fn(int) -> bool, hi: int, p: int) -> (at: int)
    requires
        0 <= p < count(f, 0, hi),
    ensures
        0 <= at < hi,
        f(at),
        count(f, 0, at) == p,
    decreases hi,
{
    if f(hi - 1) && count(f, 0, hi - 1) == p {
        hi - 1
    } else {
        lemma_numbered(f, hi - 1, p)
    }
}

/// The document that has a number in the merged segment.
proof fn lemma_came_from(sources: Seq<Source>, n: int, p: int) -> (from: (int, int))
    requires
        0 <= n <= sources.len(),
        0 <= p < live_before(sources, n),
    ensures
        0 <= from.0 < n,
        sources[from.0].live(from.1),
        place(sources, from.0, from.1) == p,
    decreases n,
{
    if p >= live_before(sources, n - 1) {
        let source = sources[n - 1];
        let at = lemma_numbered(
            source.lives(),
            source.index.lengths@.len() as int,
            p - live_before(sources, n - 1),
        );
        (n - 1, at)
    } else {
        lemma_came_from(sources, n - 1, p)
    }
}

/// How many documents the first `n` sources hold, deleted ones too.
pub open spec fn docs_before(sources: Seq<Source>, n: int) -> int
    decreases n,
{
    if n <= 0 {
        0
    } else {
        docs_before(sources, n - 1) + sources[n - 1].index.lengths@.len()
    }
}

proof fn lemma_none_lost(sources: Seq<Source>, n: int)
    ensures
        live_before(sources, n) + dropped_of(sources, n) == docs_before(sources, n),
    decreases n,
{
    if n > 0 {
        lemma_none_lost(sources, n - 1);
        let source = sources[n - 1];
        lemma_count_bound(source.lives(), 0, source.index.lengths@.len() as int);
    }
}

/// Every document that was not deleted has a number of its own in the merged segment and
/// every number of the segment is one of theirs. They are numbered in the order of the
/// sources, and within one in the order they had. A deleted one has none. And a document
/// is either in the merged segment or left behind.
pub proof fn law_each_live_document_has_its_number(sources: Seq<Source>, m: Merged)
    requires
        merged_from(sources, m),
    ensures
        m.moved.into@.len() == sources.len(),
        forall|s: int|
            0 <= s < sources.len() ==> (#[trigger] m.moved.into@[s])@.len()
                == sources[s].index.lengths@.len(),
        forall|s: int, d: int|
            0 <= s < sources.len() && 0 <= d < sources[s].index.lengths@.len() ==> if sources[s].deleted@.contains(
            d as u32) {
                #[trigger] m.moved.into@[s]@[d] == 0xffff_ffff
            } else {
                m.moved.into@[s]@[d] < m.documents
            },
        forall|a: int, x: int, b: int, y: int|
            0 <= a < sources.len() && 0 <= x < sources[a].index.lengths@.len() && 0 <= b
                < sources.len() && 0 <= y < sources[b].index.lengths@.len()
                && !sources[a].deleted@.contains(x as u32) && !sources[b].deleted@.contains(
                y as u32,
            ) && (a < b || (a == b && x < y)) ==> #[trigger] m.moved.into@[a]@[x]
                < #[trigger] m.moved.into@[b]@[y],
        forall|p: int|
            #![trigger numbered(sources, m, p)]
            0 <= p < m.documents ==> numbered(sources, m, p),
        m.documents + m.dropped == docs_before(sources, sources.len() as int),
{
    let n = sources.len() as int;
    lemma_none_lost(sources, n);
    assert forall|s: int, d: int|
        0 <= s < sources.len() && 0 <= d < sources[s].index.lengths@.len() implies if sources[s].deleted@.contains(
    d as u32) {
        #[trigger] m.moved.into@[s]@[d] == 0xffff_ffff
    } else {
        m.moved.into@[s]@[d] < m.documents
    } by {
        lemma_at(sources, m, s, d);
    }
    assert forall|a: int, x: int, b: int, y: int|
        0 <= a < sources.len() && 0 <= x < sources[a].index.lengths@.len() && 0 <= b
            < sources.len() && 0 <= y < sources[b].index.lengths@.len()
            && !sources[a].deleted@.contains(x as u32) && !sources[b].deleted@.contains(y as u32)
            && (a < b || (a == b && x < y)) implies #[trigger] m.moved.into@[a]@[x]
        < #[trigger] m.moved.into@[b]@[y] by {
        lemma_at(sources, m, a, x);
        lemma_at(sources, m, b, y);
        law_numbering_is_ordered(sources, a, x, b, y);
    }
    assert forall|p: int| 0 <= p < m.documents implies #[trigger] numbered(sources, m, p) by {
        let (s, d) = lemma_came_from(sources, n, p);
        lemma_at(sources, m, s, d);
        assert(went(sources, m, s, d, p));
    }
}

/// The document went into the merged segment and is numbered `p` there.
pub open spec fn went(sources: Seq<Source>, m: Merged, s: int, d: int, p: int) -> bool {
    &&& 0 <= s < sources.len()
    &&& 0 <= d < sources[s].index.lengths@.len()
    &&& !sources[s].deleted@.contains(d as u32)
    &&& m.moved.into@[s]@[d] == p
}

/// Some document that was not deleted is numbered `p` in the merged segment.
pub open spec fn numbered(sources: Seq<Source>, m: Merged, p: int) -> bool {
    exists|s: int, d: int| #[trigger] went(sources, m, s, d, p)
}

proof fn lemma_at(sources: Seq<Source>, m: Merged, s: int, d: int)
    requires
        merged_from(sources, m),
        0 <= s < sources.len(),
        0 <= d < sources[s].index.lengths@.len(),
    ensures
        sources[s].live(d) == !sources[s].deleted@.contains(d as u32),
        sources[s].live(d) ==> m.moved.into@[s]@[d] == place(sources, s, d) && place(sources, s, d)
            < m.documents,
        !sources[s].live(d) ==> m.moved.into@[s]@[d] == GONE,
{
    assert(m.moved.into@[s]@[d] == if sources[s].live(d) {
        place(sources, s, d) as u32
    } else {
        GONE
    });
    if sources[s].live(d) {
        lemma_place(sources, s, d);
    }
}

// ---------------------------------------------------------------------------
// What of it goes there.
// ---------------------------------------------------------------------------

/// What goes with a live document is at its number among what goes with the live ones.
proof fn lemma_survivor<T>(source: Source, things: Seq<T>, n: int, d: int)
    requires
        0 <= n,
    ensures
        survivors(source, things, n).len() == count(source.lives(), 0, n),
        0 <= d < n && source.live(d) ==> count(source.lives(), 0, d) < count(source.lives(), 0, n)
            && survivors(source, things, n)[count(source.lives(), 0, d) as int] == things[d],
    decreases n,
{
    if n > 0 {
        lemma_survivor(source, things, n - 1, d);
        assert(source.lives()(n - 1) == source.live(n - 1));
    }
}

proof fn lemma_fields_at(sources: Seq<Source>, n: int, s: int, d: int)
    requires
        0 <= n <= sources.len(),
    ensures
        live_fields(sources, n).len() == live_before(sources, n),
        0 <= s < n && sources[s].live(d) ==> place(sources, s, d) < live_before(sources, n)
            && live_fields(sources, n)[place(sources, s, d) as int] == source_fields(sources[s])[d],
    decreases n,
{
    if n > 0 {
        lemma_fields_at(sources, n - 1, s, d);
        let source = sources[n - 1];
        lemma_survivor(source, source_fields(source), source.index.lengths@.len() as int, d);
    }
}

proof fn lemma_lengths_at(sources: Seq<Source>, n: int, s: int, d: int)
    requires
        0 <= n <= sources.len(),
    ensures
        live_lengths(sources, n).len() == live_before(sources, n),
        0 <= s < n && sources[s].live(d) ==> place(sources, s, d) < live_before(sources, n)
            && live_lengths(sources, n)[place(sources, s, d) as int]
            == sources[s].index.lengths@[d],
    decreases n,
{
    if n > 0 {
        lemma_lengths_at(sources, n - 1, s, d);
        let source = sources[n - 1];
        lemma_survivor(source, source.index.lengths@, source.index.lengths@.len() as int, d);
    }
}

/// A merge carries all the fields of every document that was not deleted. Where a source
/// stored fields, the fields the merged segment stores under a document's new number are
/// the ones the source stored for it, as many, in the same order, name for name and value
/// for value. A document of a source that stored none has none there. And a merged
/// segment stores fields, for each of its documents, exactly where a source did.
pub proof fn law_every_field_is_carried(sources: Seq<Source>, m: Merged)
    requires
        merged_from(sources, m),
        forall|s: int| 0 <= s < sources.len() ==> (#[trigger] sources[s]).index.wf(),
    ensures
        m.contents.fields is Some <==> exists|s: int|
            0 <= s < sources.len() && (#[trigger] sources[s]).index.fields is Some,
        m.contents.fields matches Some(out) ==> {
            &&& out@.len() == m.documents
            &&& forall|s: int, d: int|
                0 <= s < sources.len() && 0 <= d < sources[s].index.lengths@.len()
                    && !sources[s].deleted@.contains(d as u32) ==> match sources[s].index.fields {
                    Some(stored) => {
                        let to = out@[#[trigger] m.moved.into@[s]@[d] as int]@;
                        &&& to.len() == stored@[d]@.len()
                        &&& forall|i: int|
                            0 <= i < to.len() ==> (#[trigger] to[i]).name@ == stored@[d]@[i].name@
                                && to[i].value@ == stored@[d]@[i].value@
                    },
                    None => out@[m.moved.into@[s]@[d] as int]@.len() == 0,
                }
        },
{
    let n = sources.len() as int;
    if let Some(out) = m.contents.fields {
        lemma_fields_at(sources, n, 0, 0);
        assert forall|s: int, d: int|
            0 <= s < sources.len() && 0 <= d < sources[s].index.lengths@.len()
                && !sources[s].deleted@.contains(d as u32) implies match sources[s].index.fields {
            Some(stored) => {
                let to = out@[#[trigger] m.moved.into@[s]@[d] as int]@;
                &&& to.len() == stored@[d]@.len()
                &&& forall|i: int|
                    0 <= i < to.len() ==> (#[trigger] to[i]).name@ == stored@[d]@[i].name@
                        && to[i].value@ == stored@[d]@[i].value@
            },
            None => out@[m.moved.into@[s]@[d] as int]@.len() == 0,
        } by {
            lemma_at(sources, m, s, d);
            lemma_fields_at(sources, n, s, d);
            assert(sources[s].index.wf());
            let p = m.moved.into@[s]@[d] as int;
            let to = out@[p]@;
            assert(shown_all(out@)[p] == shown(out@[p]));
            assert(shown(out@[p]) == source_fields(sources[s])[d]);
            if let Some(stored) = sources[s].index.fields {
                assert(source_fields(sources[s])[d] == shown(stored@[d]));
                assert forall|i: int| 0 <= i < to.len() implies (#[trigger] to[i]).name@
                    == stored@[d]@[i].name@ && to[i].value@ == stored@[d]@[i].value@ by {
                    assert(shown(out@[p])[i] == shown(stored@[d])[i]);
                }
            }
        }
    }
}

proof fn lemma_u32s(values: Seq<u32>)
    ensures
        u32s_bytes(values) == words(values),
    decreases values.len(),
{
    if values.len() > 0 {
        lemma_u32s(values.drop_last());
    }
}

proof fn lemma_sum(values: Seq<u32>)
    ensures
        sum(values) == values.fold_left(0nat, |total: nat, value: u32| total + value as nat),
        sum(values) <= values.len() * u32::MAX,
    decreases values.len(),
{
    reveal(Seq::fold_left);
    if values.len() > 0 {
        lemma_sum(values.drop_last());
        assert(values.len() * u32::MAX == values.drop_last().len() * u32::MAX + u32::MAX)
            by (nonlinear_arith)
            requires
                values.len() == values.drop_last().len() + 1,
        ;
    }
}

/// A merge keeps how long every document is. The norms say how many documents there are,
/// then how long they are altogether, then how long each is; and under a document's new
/// number there is the length it had, with its rounding beside it.
pub proof fn law_every_length_is_carried(sources: Seq<Source>, m: Merged)
    requires
        merged_from(sources, m),
    ensures
        ({
            let norms = m.contents.norms@;
            let lengths = Seq::new(
                m.documents as nat,
                |p: int| le_value(norms.subrange(12 + 4 * p, 16 + 4 * p)),
            );
            &&& norms.len() == 12 + 4 * m.documents
            &&& le_value(norms.subrange(0, 4)) == m.documents
            &&& le_value(norms.subrange(4, 12)) == lengths.fold_left(
                0nat,
                |total: nat, length: nat| total + length,
            )
            &&& m.rounded@.len() == m.documents
            &&& forall|s: int, d: int|
                0 <= s < sources.len() && 0 <= d < sources[s].index.lengths@.len()
                    && !sources[s].deleted@.contains(d as u32) ==> {
                    let p = #[trigger] m.moved.into@[s]@[d] as int;
                    &&& lengths[p] == sources[s].index.lengths@[d]
                    &&& rounds_to(sources[s].index.lengths@[d], m.rounded@[p])
                }
        }),
{
    let n = sources.len() as int;
    let norms = m.contents.norms@;
    let lives = live_lengths(sources, n);
    let lengths = Seq::new(
        m.documents as nat,
        |p: int| le_value(norms.subrange(12 + 4 * p, 16 + 4 * p)),
    );
    lemma_lengths_at(sources, n, 0, 0);
    lemma_u32s(lives);
    lemma_words(lives, Seq::empty());
    lemma_sum(lives);
    lemma_le_unfold(0);
    assert(lives.len() * u32::MAX < 0x1_0000_0000_0000_0000) by (nonlinear_arith)
        requires
            lives.len() <= u32::MAX,
    ;
    let head = le_bytes(live_before(sources, n), 4);
    let total = le_bytes(sum(lives), 8);
    lemma_le_bytes(live_before(sources, n), 4);
    lemma_le_bytes(sum(lives), 8);
    assert(norms.subrange(0, 4) =~= head);
    assert(norms.subrange(4, 12) =~= total);
    assert forall|p: int| 0 <= p < m.documents implies #[trigger] lengths[p] == lives[p] by {
        assert(words(lives) + Seq::empty() =~= words(lives));
        assert(word_at(words(lives) + Seq::empty(), p) == lives[p]);
        assert(norms.subrange(12 + 4 * p, 16 + 4 * p) =~= words(lives).subrange(
            4 * p,
            4 * p + 4,
        ));
    }
    lemma_same_sum(lives, lengths);
    assert forall|s: int, d: int|
        0 <= s < sources.len() && 0 <= d < sources[s].index.lengths@.len()
            && !sources[s].deleted@.contains(d as u32) implies {
        let p = #[trigger] m.moved.into@[s]@[d] as int;
        &&& lengths[p] == sources[s].index.lengths@[d]
        &&& rounds_to(sources[s].index.lengths@[d], m.rounded@[p])
    } by {
        lemma_at(sources, m, s, d);
        lemma_lengths_at(sources, n, s, d);
        let p = m.moved.into@[s]@[d] as int;
        assert(lengths[p] == lives[p]);
        assert(rounds_to(lives[p], m.rounded@[p]));
    }
}

proof fn lemma_same_sum(values: Seq<u32>, same: Seq<nat>)
    requires
        values.len() == same.len(),
        forall|i: int| 0 <= i < values.len() ==> #[trigger] same[i] == values[i],
    ensures
        values.fold_left(0nat, |total: nat, value: u32| total + value as nat) == same.fold_left(
            0nat,
            |total: nat, length: nat| total + length,
        ),
    decreases values.len(),
{
    reveal(Seq::fold_left);
    if values.len() > 0 {
        assert forall|i: int| 0 <= i < values.drop_last().len() implies #[trigger] same.drop_last()[i]
            == values.drop_last()[i] by {
            assert(same[i] == values[i]);
        }
        lemma_same_sum(values.drop_last(), same.drop_last());
        assert(same[same.len() - 1] == values.last());
    }
}

// ---------------------------------------------------------------------------
// Its terms.
// ---------------------------------------------------------------------------

proof fn lemma_held_list(entries: Seq<Entry>, term: Seq<u8>, i: int)
    requires
        forall|i: int, j: int|
            0 <= i < j < entries.len() ==> before(
                (#[trigger] entries[i]).term@,
                (#[trigger] entries[j]).term@,
            ),
        entry_at(entries, term, i),
    ensures
        held(entries, term) == entries[i].postings@,
{
    let k = choose|k: int| #[trigger] entry_at(entries, term, k);
    lemma_before_irreflexive(term);
    if k < i {
        assert(before(entries[k].term@, entries[i].term@));
    } else if i < k {
        assert(before(entries[i].term@, entries[k].term@));
    }
}

/// What is carried of a list.
proof fn lemma_carry_has(
    sources: Seq<Source>,
    s: int,
    list: Seq<(u32, u32)>,
    n: int,
    p: u32,
    often: u32,
)
    requires
        0 <= s < sources.len(),
        0 <= n <= list.len(),
        live_before(sources, sources.len() as int) <= u32::MAX,
    ensures
        carry(sources, s, list, n).contains((p, often)) <==> exists|j: int|
            0 <= j < n && sources[s].live((#[trigger] list[j]).0 as int) && place(
                sources,
                s,
                list[j].0 as int,
            ) == p && list[j].1 == often,
    decreases n,
{
    if n > 0 {
        lemma_carry_has(sources, s, list, n - 1, p, often);
        let had = carry(sources, s, list, n - 1);
        let (doc, frequency) = list[n - 1];
        if sources[s].live(doc as int) {
            lemma_place(sources, s, doc as int);
            let now = (place(sources, s, doc as int) as u32, frequency);
            assert(carry(sources, s, list, n) == had.push(now));
            if had.push(now).contains((p, often)) {
                let k = choose|k: int| 0 <= k < had.push(now).len() && had.push(now)[k] == (p, often);
                if k < had.len() {
                    assert(had[k] == (p, often));
                } else {
                    assert(list[n - 1].1 == often);
                }
            }
            if had.contains((p, often)) {
                let k = choose|k: int| 0 <= k < had.len() && had[k] == (p, often);
                assert(had.push(now)[k] == (p, often));
            }
            if now == (p, often) {
                assert(had.push(now)[had.len() as int] == (p, often));
            }
        }
    }
}

/// What is carried of a term.
proof fn lemma_carried_has(sources: Seq<Source>, term: Seq<u8>, n: int, p: u32, often: u32)
    requires
        0 <= n <= sources.len(),
        live_before(sources, sources.len() as int) <= u32::MAX,
        forall|s: int| 0 <= s < sources.len() ==> (#[trigger] sources[s]).index.wf(),
    ensures
        carried(sources, term, n).contains((p, often)) <==> exists|s: int, d: int|
            0 <= s < n && sources[s].live(d) && #[trigger] place(sources, s, d) == p && posted(
                sources[s].index.entries@,
                term,
                d,
                often,
            ),
    decreases n,
{
    if n > 0 {
        lemma_carried_has(sources, term, n - 1, p, often);
        let s = n - 1;
        let entries = sources[s].index.entries@;
        assert(sources[s].index.wf());
        let list = held(entries, term);
        let had = carried(sources, term, n - 1);
        let new = carry(sources, s, list, list.len() as int);
        lemma_carry_has(sources, s, list, list.len() as int, p, often);
        if (had + new).contains((p, often)) {
            let k = choose|k: int| 0 <= k < (had + new).len() && (had + new)[k] == (p, often);
            if k < had.len() {
                assert(had[k] == (p, often));
            } else {
                assert(new[k - had.len()] == (p, often));
                let j = choose|j: int|
                    0 <= j < list.len() && sources[s].live((#[trigger] list[j]).0 as int) && place(
                        sources,
                        s,
                        list[j].0 as int,
                    ) == p && list[j].1 == often;
                let i = choose|i: int| #[trigger] entry_at(entries, term, i);
                assert(entry_at(entries, term, i));
                lemma_held_list(entries, term, i);
                assert(entries[i].postings@[j].0 == list[j].0);
                assert(posted(entries, term, list[j].0 as int, often));
            }
        }
        if had.contains((p, often)) {
            let k = choose|k: int| 0 <= k < had.len() && had[k] == (p, often);
            assert((had + new)[k] == (p, often));
        }
        assert forall|d: int|
            sources[s].live(d) && #[trigger] place(sources, s, d) == p && posted(
                entries,
                term,
                d,
                often,
            ) implies (had + new).contains((p, often)) by {
            let (i, j) = choose|i: int, j: int|
                0 <= i < entries.len() && entries[i].term@ == term && 0 <= j
                    < entries[i].postings@.len() && #[trigger] entries[i].postings@[j].0 == d
                    && entries[i].postings@[j].1 == often;
            assert(entry_at(entries, term, i));
            lemma_held_list(entries, term, i);
            assert(list[j].0 == d);
            let k = choose|k: int| 0 <= k < new.len() && new[k] == (p, often);
            assert((had + new)[had.len() + k] == (p, often));
        }
    }
}

/// A list in order is carried in order.
proof fn lemma_carry_order(sources: Seq<Source>, s: int, list: Seq<(u32, u32)>, n: int)
    requires
        0 <= s < sources.len(),
        0 <= n <= list.len(),
        live_before(sources, sources.len() as int) <= u32::MAX,
        in_doc_order(list),
    ensures
        in_doc_order(carry(sources, s, list, n)),
        forall|k: int|
            0 <= k < carry(sources, s, list, n).len() ==> {
                &&& live_before(sources, s) <= (#[trigger] carry(sources, s, list, n)[k]).0
                &&& carry(sources, s, list, n)[k].0 < live_before(sources, s + 1)
                &&& n < list.len() && sources[s].live(list[n].0 as int) ==> carry(
                    sources,
                    s,
                    list,
                    n,
                )[k].0 < place(sources, s, list[n].0 as int)
            },
    decreases n,
{
    if n > 0 {
        lemma_carry_order(sources, s, list, n - 1);
        let had = carry(sources, s, list, n - 1);
        let (doc, frequency) = list[n - 1];
        let now = carry(sources, s, list, n);
        if sources[s].live(doc as int) {
            lemma_place(sources, s, doc as int);
            lemma_place(sources.take(s + 1), s, doc as int);
            lemma_same_live(sources, sources.take(s + 1), s + 1);
            lemma_same_live(sources, sources.take(s + 1), s);
            assert(now == had.push((place(sources, s, doc as int) as u32, frequency)));
        }
        if n < list.len() && sources[s].live(list[n].0 as int) {
            if sources[s].live(doc as int) {
                law_numbering_is_ordered(sources, s, doc as int, s, list[n].0 as int);
            }
            assert forall|k: int| 0 <= k < now.len() implies (#[trigger] now[k]).0 < place(
                sources,
                s,
                list[n].0 as int,
            ) by {
                lemma_carry_from(sources, s, list, n, k);
                let j = choose|j: int|
                    0 <= j < n && sources[s].live((#[trigger] list[j]).0 as int) && now[k].0
                        == place(sources, s, list[j].0 as int) as u32;
                lemma_place(sources, s, list[j].0 as int);
                law_numbering_is_ordered(sources, s, list[j].0 as int, s, list[n].0 as int);
            }
        }
    }
}

/// Everything carried of a list is there under another number.
proof fn lemma_carry_from(sources: Seq<Source>, s: int, list: Seq<(u32, u32)>, n: int, k: int)
    requires
        0 <= n <= list.len(),
        0 <= k < carry(sources, s, list, n).len(),
    ensures
        exists|j: int|
            0 <= j < n && sources[s].live((#[trigger] list[j]).0 as int) && carry(
                sources,
                s,
                list,
                n,
            )[k].0 == place(sources, s, list[j].0 as int) as u32,
    decreases n,
{
    let had = carry(sources, s, list, n - 1);
    if k < had.len() {
        lemma_carry_from(sources, s, list, n - 1, k);
    } else {
        assert(sources[s].live(list[n - 1].0 as int));
    }
}

/// How many documents are live before a source rests on those before it.
proof fn lemma_same_live(a: Seq<Source>, b: Seq<Source>, n: int)
    requires
        forall|i: int| 0 <= i < n ==> a[i] == b[i],
    ensures
        live_before(a, n) == live_before(b, n),
    decreases n,
{
    if n > 0 {
        lemma_same_live(a, b, n - 1);
        assert(a[n - 1] == b[n - 1]);
    }
}

proof fn lemma_carried_order(sources: Seq<Source>, term: Seq<u8>, n: int)
    requires
        0 <= n <= sources.len(),
        live_before(sources, sources.len() as int) <= u32::MAX,
        forall|s: int, i: int|
            0 <= s < sources.len() && 0 <= i < sources[s].index.entries@.len() ==> in_doc_order(
                (#[trigger] sources[s].index.entries@[i]).postings@,
            ),
    ensures
        in_doc_order(carried(sources, term, n)),
        forall|k: int|
            0 <= k < carried(sources, term, n).len() ==> (#[trigger] carried(
                sources,
                term,
                n,
            )[k]).0 < live_before(sources, n),
    decreases n,
{
    if n > 0 {
        lemma_carried_order(sources, term, n - 1);
        let entries = sources[n - 1].index.entries@;
        let list = held(entries, term);
        if exists|i: int| #[trigger] entry_at(entries, term, i) {
            let i = choose|i: int| #[trigger] entry_at(entries, term, i);
            assert(in_doc_order(sources[n - 1].index.entries@[i].postings@));
        }
        assert(in_doc_order(list));
        lemma_carry_order(sources, n - 1, list, list.len() as int);
    }
}

/// A merge carries every term of every document that was not deleted, and no other. The
/// merged dictionary says that a document holds a term so often exactly where the
/// dictionary of its source said so of it under the number it had. Every term of it is
/// held by some document, and they are in order, none twice.
pub proof fn law_every_posting_is_carried(sources: Seq<Source>, m: Merged)
    requires
        merged_from(sources, m),
        forall|s: int| 0 <= s < sources.len() ==> (#[trigger] sources[s]).index.wf(),
    ensures
        forall|term: Seq<u8>, p: u32, often: u32| #[trigger]
            posted(m.contents.entries@, term, p as int, often) <==> exists|s: int, d: int| #[trigger]
                went(sources, m, s, d, p as int) && posted(
                    sources[s].index.entries@,
                    term,
                    d,
                    often,
                ),
        forall|i: int, j: int|
            0 <= i < j < m.contents.entries@.len() ==> before(
                (#[trigger] m.contents.entries@[i]).term@,
                (#[trigger] m.contents.entries@[j]).term@,
            ),
        forall|i: int|
            0 <= i < m.contents.entries@.len() ==> (#[trigger] m.contents.entries@[i]).postings@.len()
                > 0,
        m.terms == m.contents.entries@.len(),
{
    let n = sources.len() as int;
    let entries = m.contents.entries@;
    assert forall|term: Seq<u8>, p: u32, often: u32| #[trigger]
        posted(entries, term, p as int, often) <==> exists|s: int, d: int| #[trigger]
            went(sources, m, s, d, p as int) && posted(
                sources[s].index.entries@,
                term,
                d,
                often,
            ) by {
        lemma_carried_has(sources, term, n, p, often);
        let all = carried(sources, term, n);
        if posted(entries, term, p as int, often) {
            let (i, j) = choose|i: int, j: int|
                0 <= i < entries.len() && entries[i].term@ == term && 0 <= j
                    < entries[i].postings@.len() && #[trigger] entries[i].postings@[j].0 == p
                    && entries[i].postings@[j].1 == often;
            assert(entries[i].postings@ == all);
            assert(all[j] == (p, often));
            let (s, d) = choose|s: int, d: int|
                0 <= s < n && sources[s].live(d) && #[trigger] place(sources, s, d) == p && posted(
                    sources[s].index.entries@,
                    term,
                    d,
                    often,
                );
            lemma_at(sources, m, s, d);
            assert(went(sources, m, s, d, p as int));
        }
        if exists|s: int, d: int| #[trigger]
            went(sources, m, s, d, p as int) && posted(
                sources[s].index.entries@,
                term,
                d,
                often,
            ) {
            let (s, d) = choose|s: int, d: int| #[trigger]
                went(sources, m, s, d, p as int) && posted(
                    sources[s].index.entries@,
                    term,
                    d,
                    often,
                );
            lemma_at(sources, m, s, d);
            assert(place(sources, s, d) == p);
            assert(all.contains((p, often)));
            let j = choose|j: int| 0 <= j < all.len() && all[j] == (p, often);
            let i = choose|i: int| 0 <= i < entries.len() && (#[trigger] entries[i]).term@ == term;
            assert(entries[i].postings@ == all);
            assert(entries[i].postings@[j].0 == p);
        }
    }
}

/// Postings in the order of their documents come out of a merge in the order of their
/// documents, with no document twice.
pub proof fn law_postings_come_out_in_order(sources: Seq<Source>, m: Merged)
    requires
        merged_from(sources, m),
        forall|s: int, i: int|
            0 <= s < sources.len() && 0 <= i < sources[s].index.entries@.len() ==> in_doc_order(
                (#[trigger] sources[s].index.entries@[i]).postings@,
            ),
    ensures
        forall|i: int|
            0 <= i < m.contents.entries@.len() ==> in_doc_order(
                (#[trigger] m.contents.entries@[i]).postings@,
            ),
{
    assert forall|i: int| 0 <= i < m.contents.entries@.len() implies in_doc_order(
        (#[trigger] m.contents.entries@[i]).postings@,
    ) by {
        lemma_carried_order(sources, m.contents.entries@[i].term@, sources.len() as int);
    }
}

// ---------------------------------------------------------------------------
// Its keys.
// ---------------------------------------------------------------------------

/// A source gives a key to a document of its own that was not deleted.
pub open spec fn keyed(source: Source, key: Seq<u8>, i: int) -> bool {
    &&& source.index.keys matches Some(keys)
    &&& 0 <= i < keys@.len()
    &&& keys@[i].0@ == key
    &&& keys@[i].1 < source.index.lengths@.len()
    &&& !source.deleted@.contains(keys@[i].1)
}

proof fn lemma_named_in(
    map: Map<Seq<u8>, DocId>,
    sources: Seq<Source>,
    s: int,
    keys: Seq<(Vec<u8>, DocId)>,
    n: int,
    key: Seq<u8>,
)
    requires
        0 <= n <= keys.len(),
        sources[s].index.keys matches Some(held) && held@ == keys,
    ensures
        (forall|i: int| 0 <= i < n ==> !#[trigger] keyed(sources[s], key, i)) ==> named_in(
            map,
            sources,
            s,
            keys,
            n,
        ).contains_key(key) == map.contains_key(key) && named_in(map, sources, s, keys, n)[key]
            == map[key],
        forall|i: int|
            0 <= i < n && #[trigger] keyed(sources[s], key, i) && (forall|j: int|
                i < j < n ==> !#[trigger] keyed(sources[s], key, j)) ==> named_in(
                map,
                sources,
                s,
                keys,
                n,
            ).contains_key(key) && named_in(map, sources, s, keys, n)[key] == place(
                sources,
                s,
                keys[i].1 as int,
            ) as u32,
    decreases n,
{
    if n > 0 {
        lemma_named_in(map, sources, s, keys, n - 1, key);
        let doc = keys[n - 1].1;
        assert(sources[s].live(doc as int) && keys[n - 1].0@ == key <==> keyed(
            sources[s],
            key,
            n - 1,
        ));
        let had = named_in(map, sources, s, keys, n - 1);
        assert forall|i: int|
            0 <= i < n && #[trigger] keyed(sources[s], key, i) && (forall|j: int|
                i < j < n ==> !#[trigger] keyed(sources[s], key, j)) implies named_in(
            map,
            sources,
            s,
            keys,
            n,
        ).contains_key(key) && named_in(map, sources, s, keys, n)[key] == place(
            sources,
            s,
            keys[i].1 as int,
        ) as u32 by {
            if i < n - 1 {
                assert(!keyed(sources[s], key, n - 1));
            }
        }
    }
}

/// No source after `s`, up to `n`, gives the key to a document that was not deleted, nor
/// does `s` itself after `i`.
pub open spec fn newest(sources: Seq<Source>, key: Seq<u8>, s: int, i: int, n: int) -> bool {
    &&& 0 <= s < n
    &&& keyed(sources[s], key, i)
    &&& forall|t: int, j: int|
        s < t < n || (t == s && i < j) ==> !#[trigger] keyed(sources[t], key, j)
}

proof fn lemma_named(sources: Seq<Source>, n: int, key: Seq<u8>)
    requires
        0 <= n <= sources.len(),
    ensures
        named(sources, n).contains_key(key) ==> exists|s: int, i: int|
            0 <= s < n && #[trigger] keyed(sources[s], key, i),
        forall|s: int, i: int| #[trigger]
            newest(sources, key, s, i, n) ==> named(sources, n).contains_key(key) && named(
                sources,
                n,
            )[key] == place(sources, s, sources[s].index.keys->0@[i].1 as int) as u32,
    decreases n,
{
    if n > 0 {
        lemma_named(sources, n - 1, key);
        let had = named(sources, n - 1);
        let last = n - 1;
        if let Some(keys) = sources[last].index.keys {
            lemma_named_in(had, sources, last, keys@, keys@.len() as int, key);
        }
        if named(sources, n).contains_key(key) {
            if exists|i: int| #[trigger] keyed(sources[last], key, i) {
                let i = choose|i: int| #[trigger] keyed(sources[last], key, i);
                assert(keyed(sources[last], key, i));
            } else {
                assert(had.contains_key(key));
                let (s, i) = choose|s: int, i: int|
                    0 <= s < n - 1 && #[trigger] keyed(sources[s], key, i);
                assert(0 <= s < n && keyed(sources[s], key, i));
            }
        }
        assert forall|s: int, i: int| #[trigger] newest(sources, key, s, i, n) implies named(
            sources,
            n,
        ).contains_key(key) && named(sources, n)[key] == place(
            sources,
            s,
            sources[s].index.keys->0@[i].1 as int,
        ) as u32 by {
            if s < last {
                assert(newest(sources, key, s, i, n - 1));
                assert forall|j: int| !#[trigger] keyed(sources[last], key, j) by {}
            } else {
                assert forall|j: int| i < j implies !#[trigger] keyed(sources[last], key, j) by {}
            }
        }
    }
}

/// A key that names documents of several sources names, in the merged segment, the one
/// the newest source gives it to, counting only documents that were not deleted: the
/// newest source is the last in the list, and within it the last entry of the key. A key
/// is there exactly where some source gives it to a document that was not deleted.
pub proof fn law_a_key_names_the_newest(sources: Seq<Source>, m: Merged, key: Seq<u8>)
    requires
        merged_from(sources, m),
    ensures
        m.keys@.contains_key(key) <==> exists|s: int, i: int|
            0 <= s < sources.len() && #[trigger] keyed(sources[s], key, i),
        forall|s: int, i: int| #[trigger]
            newest(sources, key, s, i, sources.len() as int) ==> m.keys@.contains_key(key)
                && m.keys@[key] == m.moved.into@[s]@[sources[s].index.keys->0@[i].1 as int],
{
    let n = sources.len() as int;
    lemma_named(sources, n, key);
    if exists|s: int, i: int| 0 <= s < n && #[trigger] keyed(sources[s], key, i) {
        let (s, i) = choose|s: int, i: int| 0 <= s < n && #[trigger] keyed(sources[s], key, i);
        let (t, j) = lemma_newest(sources, key, n, s, i);
        assert(newest(sources, key, t, j, n));
    }
    assert forall|s: int, i: int| #[trigger] newest(sources, key, s, i, n) implies m.keys@[key]
        == m.moved.into@[s]@[sources[s].index.keys->0@[i].1 as int] by {
        lemma_at(sources, m, s, sources[s].index.keys->0@[i].1 as int);
    }
}

/// Of the entries that give a key to a document, one is the newest.
proof fn lemma_newest(sources: Seq<Source>, key: Seq<u8>, n: int, s: int, i: int) -> (found: (
    int,
    int,
))
    requires
        0 <= s < n <= sources.len(),
        keyed(sources[s], key, i),
    ensures
        newest(sources, key, found.0, found.1, n),
    decreases n - s, sources[s].index.keys->0@.len() - i,
{
    if exists|t: int, j: int|
        s < t < n && #[trigger] keyed(sources[t], key, j) {
        let (t, j) = choose|t: int, j: int| s < t < n && #[trigger] keyed(sources[t], key, j);
        lemma_newest(sources, key, n, t, j)
    } else if exists|j: int| i < j && #[trigger] keyed(sources[s], key, j) {
        let j = choose|j: int| i < j && #[trigger] keyed(sources[s], key, j);
        lemma_newest(sources, key, n, s, j)
    } else {
        (s, i)
    }
}

// ---------------------------------------------------------------------------
// What goes in.
// ---------------------------------------------------------------------------

proof fn lemma_table_of(entries: Seq<(Seq<u8>, DocId)>, n: int)
    requires
        0 <= n <= entries.len(),
        ascending(entries),
        entries.len() <= u32::MAX,
        blob_of(entries).len() <= u32::MAX,
        table_bytes(entries).len() <= usize::MAX,
    ensures
        table_of(table_bytes(entries), n) == entries.take(n),
    decreases n,
{
    law_written_keys_are_read(entries, Seq::empty());
    assert(table_bytes(entries) + Seq::<u8>::empty() =~= table_bytes(entries));
    if n > 0 {
        lemma_table_of(entries, n - 1);
        assert(entries[n - 1] == entries[n - 1]);
        assert(entries.take(n) =~= entries.take(n - 1).push(entries[n - 1]));
    } else {
        assert(entries.take(0) =~= Seq::<(Seq<u8>, DocId)>::empty());
    }
}

/// What goes into a merge is what was written: the keys of a segment whose key table was
/// written with some keys are those, in order, each with its document, and the lengths of
/// one whose norms were written of some documents are how many terms each holds.
pub proof fn law_what_was_written_goes_in(
    segment: Segment,
    entries: Seq<(Seq<u8>, DocId)>,
    docs: Seq<Seq<Seq<u8>>>,
)
    requires
        bytes_of(segment, kind::KEYS) == Some(table_bytes(entries)),
        ascending(entries),
        entries.len() <= u32::MAX,
        blob_of(entries).len() <= u32::MAX,
        table_bytes(entries).len() <= usize::MAX,
        index_read(segment) is Ok,
        bytes_of(segment, kind::NORMS) == Some(norms_of(docs)),
        docs.len() <= u32::MAX,
        forall|d: int| 0 <= d < docs.len() ==> (#[trigger] docs[d]).len() <= u32::MAX,
    ensures
        keys_in(segment) == Ok::<Option<Seq<(Seq<u8>, DocId)>>, Error>(Some(entries)),
        lengths_of(segment).len() == docs.len(),
        forall|d: int|
            0 <= d < docs.len() ==> #[trigger] lengths_of(segment)[d] == docs[d].len(),
{
    law_written_keys_are_read(entries, Seq::empty());
    assert(table_bytes(entries) + Seq::<u8>::empty() =~= table_bytes(entries));
    lemma_table_of(entries, entries.len() as int);
    assert(entries.take(entries.len() as int) =~= entries);
    law_norms_say_how_long_each_document_is(docs);
    let norms = norms_of(docs);
    assert(norms.take(4) =~= norms.subrange(0, 4));
    assert forall|d: int| 0 <= d < docs.len() implies #[trigger] lengths_of(segment)[d]
        == docs[d].len() by {
        assert(norms.skip(12).subrange(4 * d, 4 * d + 4) =~= norms.subrange(
            12 + 4 * d,
            16 + 4 * d,
        ));
    }
}

/// Where a document of a source is now is what the merge says of it, and nothing where it
/// left it behind, or where there is no such document or no such source.
pub proof fn law_a_moved_document_is_where_the_merge_put_it(moved: Moved, source: int, doc: int)
    ensures
        match moved.target(source, doc) {
            Some(there) => 0 <= source < moved.into@.len() && 0 <= doc < moved.into@[source]@.len()
                && moved.into@[source]@[doc] == there && there < 0xffff_ffff,
            None => 0 <= source < moved.into@.len() && 0 <= doc < moved.into@[source]@.len()
                ==> moved.into@[source]@[doc] == 0xffff_ffff,
        },
{
}

} // verus!
