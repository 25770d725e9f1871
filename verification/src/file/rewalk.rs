//! Walks over the same bytes.
//!
//! A walk is told what it reads. Here the reads are of one file and records decode in
//! one way, so that what a walk met can be said, and what another walk of the same
//! bytes will meet.
use super::walk::{aimed, applied, lap_at, look_of, stepped, walked_to, Look, Place, Seen, Step};
use crate::codec::le_value;
use vstd::prelude::*;

verus! {

/// The window a walk looks at: the bytes of the file from where it was aimed.
pub open spec fn window_of(place: Place, file: Seq<u8>) -> Seq<u8> {
    let at = place.base + (place.position - place.offset) % place.ring;
    file.subrange(at, at + place.want)
}

/// What some bytes of a log decode to, where there are any.
pub open spec fn decoded(
    decode: spec_fn(Seq<u8>, int) -> Option<Seen>,
    bytes: Seq<u8>,
    position: int,
) -> Option<Seen> {
    if bytes.len() == 0 {
        None
    } else {
        decode(bytes, position)
    }
}

/// The step is one of a walk of the file: it looks at the bytes that are there, is told
/// what the record in front of it decodes to, and finds that the bytes ended only where
/// they did.
pub open spec fn reads(
    place: Place,
    step: Step,
    file: Seq<u8>,
    decode: spec_fn(Seq<u8>, int) -> Option<Seen>,
) -> bool {
    let window = window_of(place, file);
    let there = place.base + (place.position - place.offset) % place.ring + place.want
        <= file.len();
    match step {
        Step::Aimed => true,
        Step::Looked(looked) => there && looked == window,
        Step::Told(span, seen) => there && (look_of(place, window).1 matches Look::Record {
            start,
            end,
        } && span == end - start && seen == decoded(
            decode,
            window.subrange(start as int, end as int),
            place.position,
        )),
        Step::Unread => !there,
    }
}

/// Every step is one of a walk of the file.
pub open spec fn walks(
    start: Place,
    steps: Seq<Step>,
    file: Seq<u8>,
    decode: spec_fn(Seq<u8>, int) -> Option<Seen>,
) -> bool {
    forall|i: int|
        0 <= i < steps.len() ==> reads(
            walked_to(start, steps, i),
            #[trigger] steps[i],
            file,
            decode,
        )
}

/// The record at a position of the log, if there is one: a record takes at least
/// `least` bytes and no more than its lap of the ring has left.
pub open spec fn record_at(
    place: Place,
    file: Seq<u8>,
    decode: spec_fn(Seq<u8>, int) -> Option<Seen>,
    position: int,
) -> Option<Seen> {
    let at = place.base + position % place.ring;
    let lap = lap_at(position, place.ring);
    if lap < place.least {
        None
    } else {
        let span = le_value(file.subrange(at, at + 4));
        if span > lap {
            None
        } else {
            decoded(decode, file.subrange(at, at + span), position)
        }
    }
}

/// A walk that has not been aimed or told anything yet.
pub open spec fn unmoved(place: Place) -> bool {
    &&& place.ok()
    &&& place.ring > 0
    &&& place.base >= 0
    &&& place.position <= place.stop
    &&& place.expected is None
    &&& place.records == 0
    &&& place.bytes == 0
    &&& place.lap == 0
    &&& place.want == 0
    &&& place.offset == 0
}

/// The walk goes over the same ring.
pub(crate) open spec fn same_ring(a: Place, b: Place) -> bool {
    &&& a.ring == b.ring
    &&& a.base == b.base
    &&& a.stop == b.stop
    &&& a.least == b.least
}

// ---------------------------------------------------------------------------
// Nothing where it starts.
// ---------------------------------------------------------------------------

/// Where a walk from `start` is that has met nothing.
spec fn idle(start: Place, place: Place) -> bool {
    let there = aimed(start);
    &&& same_ring(start, place)
    &&& place.over || {
        &&& place.offset == 0
        &&& place.window >= place.least
        &&& if place.want == 0 {
            place.position == start.position
        } else {
            &&& place.position == there < place.stop
            &&& lap_at(there, place.ring) >= place.least
            &&& place.lap == lap_at(there, place.ring)
            &&& place.want <= place.lap
        }
    }
}

proof fn lemma_aimed(place: Place)
    requires
        place.ring > 0,
        place.position >= 0,
        place.stop <= u64::MAX,
    ensures
        aimed(place) >= place.position,
        aimed(place) < place.stop ==> lap_at(aimed(place), place.ring) >= place.least,
    decreases (if place.position < place.stop {
        place.stop - place.position
    } else {
        0
    }),
{
    vstd::arithmetic::div_mod::lemma_mod_bound(place.position, place.ring);
    if place.position < place.stop && lap_at(place.position, place.ring) < place.least {
        lemma_aimed(
            Place {
                position: super::plus(place.position, lap_at(place.position, place.ring)),
                ..place
            },
        );
        lemma_same_aim(
            Place {
                position: super::plus(place.position, lap_at(place.position, place.ring)),
                ..place
            },
            place,
        );
    }
}

/// Where a walk is aimed rests on its ring and its position alone.
proof fn lemma_same_aim(a: Place, b: Place)
    requires
        a.ring == b.ring > 0,
        a.stop == b.stop <= u64::MAX,
        a.least == b.least,
        a.position >= 0,
    ensures
        aimed(a) == aimed(Place { position: a.position, ..b }),
    decreases (if a.position < a.stop {
        a.stop - a.position
    } else {
        0
    }),
{
    vstd::arithmetic::div_mod::lemma_mod_bound(a.position, a.ring);
    if a.position < a.stop && lap_at(a.position, a.ring) < a.least {
        let position = super::plus(a.position, lap_at(a.position, a.ring));
        lemma_same_aim(Place { position, ..a }, b);
    }
}

/// A walk that starts where there is no record finds none.
pub proof fn law_a_walk_from_no_record_finds_none(
    start: Place,
    steps: Seq<Step>,
    file: Seq<u8>,
    decode: spec_fn(Seq<u8>, int) -> Option<Seen>,
    n: int,
)
    requires
        unmoved(start),
        walks(start, steps, file, decode),
        record_at(start, file, decode, aimed(start)) is None,
        0 <= n <= steps.len(),
    ensures
        applied(start, steps, n) == Seq::<Seen>::empty(),
{
    lemma_idle(start, steps, file, decode, n);
}

proof fn lemma_idle(
    start: Place,
    steps: Seq<Step>,
    file: Seq<u8>,
    decode: spec_fn(Seq<u8>, int) -> Option<Seen>,
    n: int,
)
    requires
        unmoved(start),
        walks(start, steps, file, decode),
        record_at(start, file, decode, aimed(start)) is None,
        0 <= n <= steps.len(),
    ensures
        applied(start, steps, n) == Seq::<Seen>::empty(),
        idle(start, walked_to(start, steps, n)),
    decreases n,
{
    if n > 0 {
        lemma_idle(start, steps, file, decode, n - 1);
        assert(reads(walked_to(start, steps, n - 1), steps[n - 1], file, decode));
        lemma_idle_step(start, walked_to(start, steps, n - 1), steps[n - 1], file, decode);
    }
}

proof fn lemma_idle_step(
    start: Place,
    place: Place,
    step: Step,
    file: Seq<u8>,
    decode: spec_fn(Seq<u8>, int) -> Option<Seen>,
)
    requires
        start.ok(),
        start.ring > 0,
        start.base >= 0,
        record_at(start, file, decode, aimed(start)) is None,
        idle(start, place),
        reads(place, step, file, decode),
    ensures
        idle(start, stepped(place, step)),
        step matches Step::Told(_, seen) ==> seen is None,
{
    let there = aimed(start);
    lemma_aimed(start);
    match step {
        Step::Aimed => {
            if !place.over {
                lemma_same_aim(place, start);
                vstd::arithmetic::div_mod::lemma_mod_bound(there, place.ring);
                if place.want == 0 {
                    assert(aimed(place) == there) by {
                        assert(Place { position: place.position, ..start } == start);
                    }
                } else {
                    assert(aimed(place) == place.position);
                }
            }
        },
        Step::Looked(_) => {},
        Step::Told(span, seen) => {
            let window = window_of(place, file);
            let at = place.base + there % place.ring;
            assert(!place.over);
            assert(window.skip(0).take(4) =~= file.subrange(at, at + 4));
            assert(window.subrange(0, span) =~= file.subrange(at, at + span));
        },
        Step::Unread => {},
    }
}

// ---------------------------------------------------------------------------
// Where a walk ends.
// ---------------------------------------------------------------------------

/// A walk ended at a place for what is there: no record, a record that does not follow
/// the one before it, or the end of its lap of the ring.
pub open spec fn ends_for_what_is_there(
    place: Place,
    file: Seq<u8>,
    decode: spec_fn(Seq<u8>, int) -> Option<Seen>,
) -> bool {
    ||| place.position >= place.stop
    ||| match record_at(place, file, decode, place.position) {
        None => true,
        Some(record) => place.expected is Some && place.expected->0 != record.sequence,
    }
}

/// What holds of a walk of the file under way.
pub(crate) open spec fn under_way(
    start: Place,
    place: Place,
    file: Seq<u8>,
    decode: spec_fn(Seq<u8>, int) -> Option<Seen>,
) -> bool {
    &&& same_ring(start, place)
    &&& place.position + (place.lap - place.offset) <= start.stop + start.ring
    &&& place.window >= place.least
    &&& 0 <= place.offset <= place.want <= place.lap
    &&& place.offset <= place.position
    &&& place.want > 0 ==> place.lap == lap_at(place.position - place.offset, place.ring)
    &&& place.over ==> ends_for_what_is_there(place, file, decode)
    &&& place.over && place.position < place.stop ==> lap_at(place.position, place.ring)
        >= place.least
}

/// What a walk looks at is at its own position of the ring.
pub(crate) proof fn lemma_inside(place: Place)
    requires
        place.ring > 0,
        place.position >= place.offset >= 0,
        place.offset < place.lap,
        place.lap == lap_at(place.position - place.offset, place.ring),
    ensures
        place.position % place.ring == (place.position - place.offset) % place.ring + place.offset,
        lap_at(place.position, place.ring) == place.lap - place.offset,
{
    let from = place.position - place.offset;
    vstd::arithmetic::div_mod::lemma_mod_bound(from, place.ring);
    vstd::arithmetic::div_mod::lemma_small_mod(place.offset as nat, place.ring as nat);
    vstd::arithmetic::div_mod::lemma_mod_adds(from, place.offset, place.ring);
    vstd::arithmetic::div_mod::lemma_basic_div(from % place.ring + place.offset, place.ring);
}

/// A finished walk of a file that holds its whole log ended for what is where it ended:
/// there was no record there, or one that did not follow, or it had been all the way
/// round.
pub proof fn law_a_walk_ends_for_what_is_there(
    start: Place,
    steps: Seq<Step>,
    file: Seq<u8>,
    decode: spec_fn(Seq<u8>, int) -> Option<Seen>,
)
    requires
        unmoved(start),
        !start.over,
        walks(start, steps, file, decode),
        start.base + start.ring <= file.len(),
        start.stop + start.ring <= u64::MAX,
        walked_to(start, steps, steps.len() as int).over,
    ensures
        ends_for_what_is_there(walked_to(start, steps, steps.len() as int), file, decode),
{
    lemma_under_way(start, steps, file, decode, steps.len() as int);
}

pub(crate) proof fn lemma_under_way(
    start: Place,
    steps: Seq<Step>,
    file: Seq<u8>,
    decode: spec_fn(Seq<u8>, int) -> Option<Seen>,
    n: int,
)
    requires
        unmoved(start),
        !start.over,
        walks(start, steps, file, decode),
        start.base + start.ring <= file.len(),
        start.stop + start.ring <= u64::MAX,
        0 <= n <= steps.len(),
    ensures
        under_way(start, walked_to(start, steps, n), file, decode),
    decreases n,
{
    if n > 0 {
        lemma_under_way(start, steps, file, decode, n - 1);
        let place = walked_to(start, steps, n - 1);
        assert(reads(place, steps[n - 1], file, decode));
        lemma_step(start, place, steps[n - 1], file, decode);
    }
}

proof fn lemma_step(
    start: Place,
    place: Place,
    step: Step,
    file: Seq<u8>,
    decode: spec_fn(Seq<u8>, int) -> Option<Seen>,
)
    requires
        start.ring > 0,
        start.base + start.ring <= file.len(),
        start.stop + start.ring <= u64::MAX,
        start.base >= 0,
        start.least >= 4,
        under_way(start, place, file, decode),
        reads(place, step, file, decode),
    ensures
        under_way(start, stepped(place, step), file, decode),
{
    let next = stepped(place, step);
    let from = place.position - place.offset;
    vstd::arithmetic::div_mod::lemma_mod_bound(from, place.ring);
    match step {
        Step::Aimed => {
            if !place.over {
                lemma_aimed(place);
                lemma_aimed_reach(place);
                vstd::arithmetic::div_mod::lemma_mod_bound(aimed(place), place.ring);
            }
        },
        Step::Looked(window) => {
            if !place.over && place.offset + place.least <= place.want {
                lemma_inside(place);
                lemma_span(place, file);
            }
        },
        Step::Told(span, seen) => {
            assert(!place.over);
            lemma_inside(place);
            lemma_span(place, file);
            let window = window_of(place, file);
            let at = place.base + place.position % place.ring;
            assert(window.subrange(place.offset, place.offset + span) =~= file.subrange(
                at,
                at + span,
            ));
            assert(seen == record_at(place, file, decode, place.position));
        },
        Step::Unread => {
            assert(false);
        },
    }
}

/// How long the record in front of a walk says it is, is what the file says.
pub(crate) proof fn lemma_span(place: Place, file: Seq<u8>)
    requires
        place.ring > 0,
        place.base >= 0,
        place.least >= 4,
        place.offset >= 0,
        place.offset + place.least <= place.want,
        place.base + place.ring <= file.len(),
        place.want <= place.lap,
        place.lap == lap_at(place.position - place.offset, place.ring),
        place.position % place.ring == (place.position - place.offset) % place.ring + place.offset,
    ensures
        window_of(place, file).skip(place.offset).take(4) == file.subrange(
            place.base + place.position % place.ring,
            place.base + place.position % place.ring + 4,
        ),
{
    vstd::arithmetic::div_mod::lemma_mod_bound(place.position - place.offset, place.ring);
    let at = place.base + place.position % place.ring;
    assert(window_of(place, file).skip(place.offset).take(4) =~= file.subrange(at, at + 4));
}

/// A walk is aimed no further than a lap past where it stops.
proof fn lemma_aimed_reach(place: Place)
    requires
        place.ring > 0,
        place.position >= 0,
        place.stop + place.ring <= u64::MAX,
        place.position <= place.stop + place.ring,
    ensures
        aimed(place) <= place.stop + place.ring,
    decreases (if place.position < place.stop {
        place.stop - place.position
    } else {
        0
    }),
{
    vstd::arithmetic::div_mod::lemma_mod_bound(place.position, place.ring);
    if place.position < place.stop && lap_at(place.position, place.ring) < place.least {
        lemma_aimed_reach(
            Place {
                position: super::plus(place.position, lap_at(place.position, place.ring)),
                ..place
            },
        );
    }
}

/// A walk of the same bytes from where another ended finds nothing, unless the first had
/// been all the way round or had stopped at a record that did not follow: it ended
/// because there is no record there, and there is none there still.
pub proof fn law_a_walk_from_where_one_ended_finds_none(
    start: Place,
    steps: Seq<Step>,
    again: Place,
    more: Seq<Step>,
    file: Seq<u8>,
    decode: spec_fn(Seq<u8>, int) -> Option<Seen>,
    n: int,
)
    requires
        unmoved(start),
        !start.over,
        walks(start, steps, file, decode),
        start.base + start.ring <= file.len(),
        start.stop + start.ring <= u64::MAX,
        ({
            let end = walked_to(start, steps, steps.len() as int);
            &&& end.over
            &&& end.position < end.stop
            &&& record_at(start, file, decode, end.position) matches Some(record) ==> (
            end.expected matches Some(next) ==> record.sequence == next)
            &&& again.position == end.position
        }),
        unmoved(again),
        again.ring == start.ring,
        again.base == start.base,
        again.least == start.least,
        walks(again, more, file, decode),
        0 <= n <= more.len(),
    ensures
        applied(again, more, n) == Seq::<Seen>::empty(),
{
    lemma_under_way(start, steps, file, decode, steps.len() as int);
    assert(aimed(again) == again.position);
    assert(record_at(again, file, decode, again.position) == record_at(
        start,
        file,
        decode,
        again.position,
    ));
    law_a_walk_from_no_record_finds_none(again, more, file, decode, n);
}

} // verus!
