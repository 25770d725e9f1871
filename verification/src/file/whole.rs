//! A walk of a log that holds some records finds them all.
use super::rewalk::{
    decoded, lemma_inside, lemma_span, lemma_under_way, reads, under_way, walks, window_of,
};
use super::walk::{
    aim_of, aimed, applied, lap_at, law_a_record_that_follows_is_applied,
    law_a_walk_finds_what_it_applies, look_of, seen_of, start_of, stepped, walked_of, walked_to,
    Place, Seen, Step, WINDOW,
};
use crate::codec::le_value;
use crate::manifest::{Manifest, Superblock};
use vstd::prelude::*;

verus! {

/// A record where it lies in a log: the position it starts at, the bytes it takes, and
/// what it decodes to.
pub struct Written {
    pub at: int,
    pub span: int,
    pub record: Seen,
}

/// Where the record after `from` starts: right there, or at the start of the next lap
/// where what is left of this one is less than a record takes.
pub open spec fn behind(ring: int, least: int, from: int) -> int {
    if ring - from % ring < least {
        from + (ring - from % ring)
    } else {
        from
    }
}

/// Where the writer was after the first `k` records.
pub open spec fn written_to(head: int, log: Seq<Written>, k: int) -> int {
    if k <= 0 {
        head
    } else {
        log[k - 1].at + log[k - 1].span
    }
}

/// The number the record after the first `k` has, if any came before it: a pad has the
/// number of the record behind it.
pub open spec fn number_after(log: Seq<Written>, k: int) -> Option<int> {
    if k <= 0 {
        None
    } else if log[k - 1].record.pad {
        Some(log[k - 1].record.sequence as int)
    } else {
        Some(log[k - 1].record.sequence + 1)
    }
}

/// A file holds the records of a log, whole, one behind another from the head, within
/// one lap of the ring, each with the number that follows, and behind the last there is
/// no record that follows.
pub open spec fn holds_log(
    superblock: Superblock,
    head: int,
    least: int,
    log: Seq<Written>,
    file: Seq<u8>,
    decode: spec_fn(Seq<u8>, int) -> Option<Seen>,
) -> bool {
    let ring = superblock.wal_len as int;
    let base = superblock.wal_offset as int;
    let n = log.len() as int;
    let last = behind(ring, least, written_to(head, log, n));
    &&& forall|i: int|
        0 <= i < n ==> {
            let at = base + (#[trigger] log[i]).at % ring;
            let left = ring - log[i].at % ring;
            &&& log[i].at == behind(ring, least, written_to(head, log, i))
            &&& head <= log[i].at < head + ring
            &&& 0 < log[i].span <= left
            &&& le_value(file.subrange(at, at + 4)) == log[i].span
            &&& decode(file.subrange(at, at + log[i].span), log[i].at) == Some(log[i].record)
            &&& log[i].record.sequence < u64::MAX
            &&& i > 0 ==> Some(log[i].record.sequence as int) == number_after(log, i)
        }
    &&& {
        let at = base + last % ring;
        let span = le_value(file.subrange(at, at + 4));
        0 < span <= ring - last % ring ==> match decode(file.subrange(at, at + span), last) {
            Some(record) => n > 0 && number_after(log, n) != Some(record.sequence as int),
            None => true,
        }
    }
}

/// The records of a log that are not pads, in order.
pub open spec fn told(log: Seq<Written>) -> Seq<Seen>
    decreases log.len(),
{
    if log.len() == 0 {
        Seq::empty()
    } else if log.last().record.pad {
        told(log.drop_last())
    } else {
        told(log.drop_last()).push(log.last().record)
    }
}

/// A walk has come past the first `k` records and applied them.
spec fn past(head: int, least: int, log: Seq<Written>, place: Place, k: int) -> bool {
    let from = written_to(head, log, k);
    &&& 0 <= k <= log.len()
    &&& place.over ==> k == log.len()
    &&& place.position == from || place.position == behind(place.ring, least, from)
    &&& match number_after(log, k) {
        Some(next) => place.expected matches Some(expected) && expected == next,
        None => place.expected is None,
    }
}

proof fn lemma_aim(place: Place, from: int, ring: int, least: int)
    requires
        place.ring == ring > 0,
        0 < place.least == least <= ring,
        place.stop + ring <= u64::MAX,
        0 <= from,
        place.position == from || place.position == behind(ring, least, from),
        from <= place.stop + ring,
    ensures
        aimed(place) == from || aimed(place) == behind(ring, least, from),
        behind(ring, least, from) < place.stop ==> aimed(place) == behind(ring, least, from),
        from <= behind(ring, least, from),
{
    let to = behind(ring, least, from);
    vstd::arithmetic::div_mod::lemma_mod_bound(from, ring);
    if to != from {
        let m = from % ring;
        vstd::arithmetic::div_mod::lemma_fundamental_div_mod(from, ring);
        assert(to == ring * (from / ring + 1)) by (nonlinear_arith)
            requires
                from == ring * (from / ring) + m,
                to == from + (ring - m),
        ;
        vstd::arithmetic::div_mod::lemma_mod_multiples_basic(from / ring + 1, ring);
        assert(to % ring == 0) by {
            assert(ring * (from / ring + 1) == (from / ring + 1) * ring) by (nonlinear_arith);
        }
        assert(lap_at(to, ring) == ring);
        let there = Place { position: to, ..place };
        assert(aimed(there) == to);
        if place.position == from && from < place.stop {
            assert(super::plus(from, lap_at(from, ring)) == to);
            assert(aimed(place) == aimed(there));
        }
    }
}

/// A walk that looks at a record looks at the one that starts where the writer went on.
proof fn lemma_looked(
    start: Place,
    place: Place,
    file: Seq<u8>,
    decode: spec_fn(Seq<u8>, int) -> Option<Seen>,
    from: int,
)
    requires
        4 <= start.least <= start.ring,
        start.base >= 0,
        start.base + start.ring <= file.len(),
        under_way(start, place, file, decode),
        place.position == from || place.position == behind(start.ring, start.least, from),
        !place.over,
        place.offset + place.least <= place.want,
    ensures
        place.position == behind(start.ring, start.least, from),
        place.lap - place.offset == start.ring - place.position % start.ring,
        place.position % place.ring == (place.position - place.offset) % place.ring + place.offset,
        ({
            let at = start.base + place.position % start.ring;
            window_of(place, file).skip(place.offset).take(4) == file.subrange(at, at + 4)
        }),
{
    lemma_inside(place);
    lemma_span(place, file);
}

/// What a walk is told of a record is what its bytes decode to.
proof fn lemma_heard(
    start: Place,
    place: Place,
    file: Seq<u8>,
    decode: spec_fn(Seq<u8>, int) -> Option<Seen>,
    from: int,
    span: int,
    seen: Option<Seen>,
)
    requires
        4 <= start.least <= start.ring,
        start.base >= 0,
        start.base + start.ring <= file.len() <= u64::MAX,
        under_way(start, place, file, decode),
        place.position == from || place.position == behind(start.ring, start.least, from),
        reads(place, Step::Told(span, seen), file, decode),
    ensures
        !place.over,
        place.position == behind(start.ring, start.least, from),
        place.position + span <= start.stop + start.ring,
        ({
            let at = start.base + place.position % start.ring;
            &&& span == le_value(file.subrange(at, at + 4))
            &&& 0 <= span <= start.ring - place.position % start.ring
            &&& seen == decoded(decode, file.subrange(at, at + span), place.position)
        }),
{
    lemma_looked(start, place, file, decode, from);
    let window = window_of(place, file);
    let at = place.base + place.position % place.ring;
    vstd::arithmetic::div_mod::lemma_mod_bound(place.position - place.offset, place.ring);
    assert(window.subrange(place.offset, place.offset + span) =~= file.subrange(at, at + span));
}

/// A walk that has come past `k` records is not aimed past the next.
proof fn lemma_aims(
    start: Place,
    place: Place,
    head: int,
    log: Seq<Written>,
    k: int,
)
    requires
        0 < start.least <= start.ring,
        start.stop == head + start.ring,
        start.stop + start.ring <= u64::MAX,
        place.ring == start.ring,
        place.least == start.least,
        place.stop == start.stop,
        0 <= written_to(head, log, k) <= start.stop + start.ring,
        k < log.len() ==> behind(start.ring, start.least, written_to(head, log, k)) < start.stop,
        past(head, start.least, log, place, k),
    ensures
        past(head, start.least, log, aim_of(place), k),
{
    lemma_aim(place, written_to(head, log, k), start.ring, start.least);
}

/// A look ends a walk only behind the last record.
proof fn lemma_looks(
    start: Place,
    place: Place,
    file: Seq<u8>,
    decode: spec_fn(Seq<u8>, int) -> Option<Seen>,
    head: int,
    log: Seq<Written>,
    k: int,
)
    requires
        4 <= start.least <= start.ring,
        start.base >= 0,
        start.base + start.ring <= file.len() <= u64::MAX,
        under_way(start, place, file, decode),
        past(head, start.least, log, place, k),
        k < log.len() ==> {
            let to = behind(start.ring, start.least, written_to(head, log, k));
            let at = start.base + to % start.ring;
            le_value(file.subrange(at, at + 4)) <= start.ring - to % start.ring
        },
    ensures
        past(head, start.least, log, look_of(place, window_of(place, file)).0, k),
{
    if !place.over && place.offset + place.least <= place.want {
        lemma_looked(start, place, file, decode, written_to(head, log, k));
    }
}

/// A step of a walk that has come past `k` records takes it no further than the next.
proof fn lemma_next(
    superblock: Superblock,
    head: int,
    least: int,
    log: Seq<Written>,
    file: Seq<u8>,
    decode: spec_fn(Seq<u8>, int) -> Option<Seen>,
    start: Place,
    place: Place,
    step: Step,
    k: int,
) -> (more: int)
    requires
        4 <= least <= superblock.wal_len,
        0 <= head,
        superblock.wal_offset + superblock.wal_len <= file.len() <= u64::MAX,
        head + 2 * superblock.wal_len <= u64::MAX,
        holds_log(superblock, head, least, log, file, decode),
        start.ring == superblock.wal_len,
        start.base == superblock.wal_offset,
        start.least == least,
        start.stop == head + superblock.wal_len,
        under_way(start, place, file, decode),
        past(head, least, log, place, k),
        reads(place, step, file, decode),
    ensures
        more == k || more == k + 1,
        past(head, least, log, stepped(place, step), more),
        more == k ==> !(step matches Step::Told(span, Some(seen)) && seen_of(
            place,
            span,
            Some(seen),
        ).1),
        more == k + 1 ==> (step matches Step::Told(span, Some(seen)) && seen == log[k].record
            && seen_of(place, span, Some(seen)).1 == !seen.pad),
{
    let ring = superblock.wal_len as int;
    let from = written_to(head, log, k);
    let to = behind(ring, least, from);
    if k > 0 {
        assert(head <= log[k - 1].at < head + ring);
        vstd::arithmetic::div_mod::lemma_mod_bound(log[k - 1].at, ring);
    }
    assert(0 <= from <= start.stop + ring);
    if k < log.len() {
        assert(log[k].at == to);
    }
    match step {
        Step::Aimed => {
            lemma_aims(start, place, head, log, k);
            k
        },
        Step::Looked(window) => {
            lemma_looks(start, place, file, decode, head, log, k);
            k
        },
        Step::Told(span, seen) => {
            lemma_heard(start, place, file, decode, from, span, seen);
            law_a_record_that_follows_is_applied(place, span, seen);
            if k < log.len() {
                assert(file.subrange(
                    start.base + to % ring,
                    start.base + to % ring + span,
                ).len() == span) by {
                    vstd::arithmetic::div_mod::lemma_mod_bound(to, ring);
                }
                assert(seen == Some(log[k].record));
                k + 1
            } else {
                assert(seen_of(place, span, seen).0.over);
                k
            }
        },
        Step::Unread => {
            vstd::arithmetic::div_mod::lemma_mod_bound(place.position - place.offset, ring);
            k
        },
    }
}

proof fn lemma_past(
    superblock: Superblock,
    manifest: Manifest,
    least: u64,
    log: Seq<Written>,
    file: Seq<u8>,
    decode: spec_fn(Seq<u8>, int) -> Option<Seen>,
    steps: Seq<Step>,
    n: int,
) -> (k: int)
    requires
        4 <= least <= WINDOW,
        least <= superblock.wal_len,
        superblock.wal_offset + superblock.wal_len <= file.len() <= u64::MAX,
        manifest.wal_head + 2 * superblock.wal_len <= u64::MAX,
        holds_log(superblock, manifest.wal_head as int, least as int, log, file, decode),
        walks(start_of(superblock, manifest, least), steps, file, decode),
        0 <= n <= steps.len(),
    ensures
        ({
            let start = start_of(superblock, manifest, least);
            &&& past(
                manifest.wal_head as int,
                least as int,
                log,
                walked_to(start, steps, n),
                k,
            )
            &&& applied(start, steps, n) == told(log.take(k))
        }),
    decreases n,
{
    let start = start_of(superblock, manifest, least);
    if n == 0 {
        assert(log.take(0) =~= Seq::<Written>::empty());
        0
    } else {
        let k = lemma_past(superblock, manifest, least, log, file, decode, steps, n - 1);
        lemma_under_way(start, steps, file, decode, n - 1);
        let place = walked_to(start, steps, n - 1);
        assert(reads(place, steps[n - 1], file, decode));
        let more = lemma_next(
            superblock,
            manifest.wal_head as int,
            least as int,
            log,
            file,
            decode,
            start,
            place,
            steps[n - 1],
            k,
        );
        if more == k + 1 {
            assert(log.take(k + 1).drop_last() =~= log.take(k));
        }
        more
    }
}

proof fn lemma_told(log: Seq<Written>)
    ensures
        (forall|i: int| 0 <= i < log.len() ==> !(#[trigger] log[i]).record.pad) ==> told(log)
            == log.map_values(|written: Written| written.record),
    decreases log.len(),
{
    if log.len() > 0 {
        lemma_told(log.drop_last());
        if forall|i: int| 0 <= i < log.len() ==> !(#[trigger] log[i]).record.pad {
            assert forall|i: int| 0 <= i < log.drop_last().len() implies !(
            #[trigger] log.drop_last()[i]).record.pad by {
                assert(log.drop_last()[i] == log[i]);
            }
            assert(!log[log.len() - 1].record.pad);
            assert(told(log) =~= log.map_values(|written: Written| written.record));
        }
    } else {
        assert(told(log) =~= log.map_values(|written: Written| written.record));
    }
}

/// A walk finds every record of a log. Where a file holds some records, whole, one
/// behind another from the committed head and each with the number that follows, a walk
/// of it that has ended has applied each of them that is not a pad, oldest first, and
/// nothing else: it has counted them, and the number it hands on is the one behind the
/// last of them.
pub proof fn law_a_walk_finds_every_record(
    superblock: Superblock,
    manifest: Manifest,
    least: u64,
    log: Seq<Written>,
    file: Seq<u8>,
    decode: spec_fn(Seq<u8>, int) -> Option<Seen>,
    steps: Seq<Step>,
)
    requires
        4 <= least <= WINDOW,
        least <= superblock.wal_len,
        superblock.wal_offset + superblock.wal_len <= file.len() <= u64::MAX,
        manifest.wal_head + 2 * superblock.wal_len <= u64::MAX,
        holds_log(superblock, manifest.wal_head as int, least as int, log, file, decode),
        walks(start_of(superblock, manifest, least), steps, file, decode),
        walked_to(start_of(superblock, manifest, least), steps, steps.len() as int).over,
    ensures
        ({
            let start = start_of(superblock, manifest, least);
            let n = steps.len() as int;
            let found = walked_of(walked_to(start, steps, n));
            let records = applied(start, steps, n);
            &&& (forall|i: int| 0 <= i < log.len() ==> !(#[trigger] log[i]).record.pad)
                ==> records == log.map_values(|written: Written| written.record)
            &&& records == told(log)
            &&& found.records == records.len()
            &&& log.len() > 0 && number_after(log, log.len() as int)->0 >= manifest.wal_sequence
                ==> Some(found.sequence as int) == number_after(log, log.len() as int)
            &&& log.len() == 0 ==> found.sequence == manifest.wal_sequence
        }),
{
    let start = start_of(superblock, manifest, least);
    let n = steps.len() as int;
    let k = lemma_past(superblock, manifest, least, log, file, decode, steps, n);
    assert(log.take(k) =~= log);
    lemma_told(log);
    law_a_walk_finds_what_it_applies(start, steps, n);
    lemma_each_takes_room(
        superblock,
        manifest.wal_head as int,
        least as int,
        log,
        file,
        decode,
        log.len() as int,
    );
    lemma_told_few(log);
    if log.len() > 0 {
        assert(log[log.len() - 1].at < manifest.wal_head + superblock.wal_len);
        vstd::arithmetic::div_mod::lemma_mod_bound(
            log[log.len() - 1].at,
            superblock.wal_len as int,
        );
    }
}

/// Each record takes some of the ring.
proof fn lemma_each_takes_room(
    superblock: Superblock,
    head: int,
    least: int,
    log: Seq<Written>,
    file: Seq<u8>,
    decode: spec_fn(Seq<u8>, int) -> Option<Seen>,
    k: int,
)
    requires
        superblock.wal_len > 0,
        holds_log(superblock, head, least, log, file, decode),
        0 <= k <= log.len(),
    ensures
        head + k <= written_to(head, log, k),
    decreases k,
{
    if k > 0 {
        lemma_each_takes_room(superblock, head, least, log, file, decode, k - 1);
        let at = log[k - 1].at;
        assert(at == behind(superblock.wal_len as int, least, written_to(head, log, k - 1)));
        vstd::arithmetic::div_mod::lemma_mod_bound(
            written_to(head, log, k - 1),
            superblock.wal_len as int,
        );
    }
}

proof fn lemma_told_few(log: Seq<Written>)
    ensures
        told(log).len() <= log.len(),
    decreases log.len(),
{
    if log.len() > 0 {
        lemma_told_few(log.drop_last());
    }
}

} // verus!
