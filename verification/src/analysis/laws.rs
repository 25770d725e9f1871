//! What the words of a text are, and what a term is of its word.
use super::{
    boundary, joined, joins, lemma_boundary, lemma_boundary_past, lemma_word_end, lowered_bytes,
    lowers_of, stands_alone, term_of, terms_of, word_end, words,
};
use vstd::prelude::*;
use vstd::utf8::{
    encode_utf8, encode_utf8_valid_utf8, is_continuation_byte, partial_valid_partial_invalid_utf8,
    valid_utf8,
};

verus! {

/// A character of Han or of kana stands alone, and no other does.
pub proof fn law_han_and_kana_stand_alone(ch: char)
    ensures
        stands_alone(ch) <==> ({
            let c = ch as u32;
            ||| 0x3040 <= c <= 0x30ff
            ||| 0x3400 <= c <= 0x4dbf
            ||| 0x4e00 <= c <= 0x9fff
            ||| 0xf900 <= c <= 0xfaff
        }),
        joins(ch) <==> ch == '\'' || ch == '\u{2019}',
{
}

/// Whether a character is of a word: alphanumeric, and not one that stands alone.
spec fn worded(text: Seq<char>, classes: Seq<bool>, at: int) -> bool {
    0 <= at < text.len() && classes[at] && !stands_alone(text[at])
}

/// Whether a word that has come to `at` goes on.
spec fn goes_on(text: Seq<char>, classes: Seq<bool>, at: int) -> bool {
    worded(text, classes, at) || (0 <= at < text.len() && joins(text[at]) && worded(
        text,
        classes,
        at + 1,
    ))
}

/// Whether a character is in a term.
spec fn kept(text: Seq<char>, classes: Seq<bool>, p: int) -> bool {
    ||| stands_alone(text[p])
    ||| classes[p]
    ||| joins(text[p]) && worded(text, classes, p - 1) && worded(text, classes, p + 1)
}

/// No word goes on from before `at` into it.
spec fn begins(text: Seq<char>, classes: Seq<bool>, at: int) -> bool {
    !(worded(text, classes, at - 1) && goes_on(text, classes, at))
}

/// Where a word ends: everything up to there goes on, and nothing there does.
proof fn lemma_word(text: Seq<char>, classes: Seq<bool>, at: int)
    requires
        0 < at <= text.len(),
        classes.len() == text.len(),
        worded(text, classes, at - 1),
    ensures
        ({
            let end = word_end(text, classes, at);
            &&& at <= end <= text.len()
            &&& forall|q: int| at <= q < end ==> #[trigger] goes_on(text, classes, q)
            &&& !goes_on(text, classes, end)
            &&& worded(text, classes, end - 1)
        }),
    decreases text.len() - at,
{
    lemma_word_end(text, classes, at);
    if goes_on(text, classes, at) {
        if worded(text, classes, at) {
            lemma_word(text, classes, at + 1);
        } else {
            assert(worded(text, classes, at + 1));
            assert(word_end(text, classes, at) == word_end(text, classes, at + 1));
            assert(word_end(text, classes, at + 1) == word_end(text, classes, at + 2));
            lemma_word(text, classes, at + 2);
        }
    }
}

/// What the words of a text from `at` on are.
spec fn words_from(
    text: Seq<char>,
    classes: Seq<bool>,
    at: int,
    ranges: Seq<(int, int)>,
) -> bool {
    &&& forall|i: int|
        0 <= i < ranges.len() ==> at <= (#[trigger] ranges[i]).0 < ranges[i].1 <= text.len()
    &&& forall|i: int, j: int|
        0 <= i < j < ranges.len() ==> (#[trigger] ranges[i]).1 <= (#[trigger] ranges[j]).0
    &&& forall|p: int|
        at <= p < text.len() ==> (#[trigger] kept(text, classes, p) <==> exists|i: int|
            0 <= i < ranges.len() && (#[trigger] ranges[i]).0 <= p < ranges[i].1)
    &&& forall|i: int, p: int|
        0 <= i < ranges.len() && (#[trigger] ranges[i]).0 < p < ranges[i].1 ==> !stands_alone(
            #[trigger] text[p],
        ) && !stands_alone(text[p - 1])
    &&& forall|i: int|
        0 <= i < ranges.len() ==> stands_alone(text[(#[trigger] ranges[i]).0]) || worded(
            text,
            classes,
            ranges[i].0,
        )
    &&& forall|i: int|
        0 <= i < ranges.len() - 1 && (#[trigger] ranges[i]).1 == ranges[i + 1].0 ==> stands_alone(
            text[ranges[i].1 - 1],
        ) || stands_alone(text[ranges[i].1])
}

proof fn lemma_words_from(text: Seq<char>, classes: Seq<bool>, at: int)
    requires
        0 <= at <= text.len(),
        classes.len() == text.len(),
        begins(text, classes, at),
    ensures
        words_from(text, classes, at, words(text, classes, at)),
    decreases text.len() - at,
{
    if at < text.len() {
        if stands_alone(text[at]) {
            lemma_words_from(text, classes, at + 1);
            lemma_one_more(text, classes, at, at + 1, words(text, classes, at + 1));
        } else if !classes[at] {
            lemma_words_from(text, classes, at + 1);
            let ranges = words(text, classes, at + 1);
            assert(!kept(text, classes, at));
            assert forall|p: int| at <= p < text.len() implies (#[trigger] kept(text, classes, p)
                <==> exists|i: int|
                0 <= i < ranges.len() && (#[trigger] ranges[i]).0 <= p < ranges[i].1) by {
                if p == at {
                    assert(forall|i: int| 0 <= i < ranges.len() ==> (#[trigger] ranges[i]).0 > at);
                }
            }
        } else {
            lemma_word(text, classes, at + 1);
            let end = word_end(text, classes, at + 1);
            lemma_words_from(text, classes, end);
            assert forall|q: int| at <= q < end implies #[trigger] kept(text, classes, q)
                && !stands_alone(text[q]) by {
                if q > at {
                    assert(goes_on(text, classes, q));
                    if !worded(text, classes, q) && q - 1 > at {
                        assert(goes_on(text, classes, q - 1));
                    }
                }
            }
            assert forall|q: int| at <= q < end implies !stands_alone(#[trigger] text[q]) by {
                assert(kept(text, classes, q));
            }
            lemma_one_more(text, classes, at, end, words(text, classes, end));
        }
    }
}

/// A word in front of the words after it.
proof fn lemma_one_more(
    text: Seq<char>,
    classes: Seq<bool>,
    at: int,
    end: int,
    rest: Seq<(int, int)>,
)
    requires
        0 <= at < end <= text.len(),
        words_from(text, classes, end, rest),
        forall|q: int| at <= q < end ==> #[trigger] kept(text, classes, q),
        stands_alone(text[at]) && end == at + 1 || (worded(text, classes, at) && !goes_on(
            text,
            classes,
            end,
        ) && forall|q: int| at <= q < end ==> !stands_alone(#[trigger] text[q])),
    ensures
        words_from(text, classes, at, seq![(at, end)] + rest),
{
    let ranges = seq![(at, end)] + rest;
    assert(ranges[0] == (at, end));
    assert(forall|i: int| 0 < i < ranges.len() ==> #[trigger] ranges[i] == rest[i - 1]);
    assert forall|p: int| at <= p < text.len() implies (#[trigger] kept(text, classes, p)
        <==> exists|i: int| 0 <= i < ranges.len() && (#[trigger] ranges[i]).0 <= p < ranges[i].1) by {
        if p < end {
            assert(ranges[0].0 <= p < ranges[0].1);
        } else {
            if kept(text, classes, p) {
                let i = choose|i: int| 0 <= i < rest.len() && (#[trigger] rest[i]).0 <= p < rest[i].1;
                assert(ranges[i + 1] == rest[i]);
            }
            if exists|i: int| 0 <= i < ranges.len() && (#[trigger] ranges[i]).0 <= p < ranges[i].1 {
                let i = choose|i: int|
                    0 <= i < ranges.len() && (#[trigger] ranges[i]).0 <= p < ranges[i].1;
                assert(rest[i - 1] == ranges[i]);
            }
        }
    }
    assert forall|i: int|
        0 <= i < ranges.len() - 1 && (#[trigger] ranges[i]).1 == ranges[i + 1].0 implies stands_alone(
        text[ranges[i].1 - 1],
    ) || stands_alone(text[ranges[i].1]) by {
        if i == 0 {
            assert(rest[0] == ranges[1]);
        } else {
            assert(rest[i - 1] == ranges[i] && rest[i] == ranges[i + 1]);
        }
    }
}

/// The words of a text are all of it that is worth searching for. Every character that
/// is alphanumeric or stands alone is in one of them, and so is a joiner with a word on
/// both sides; no other character is. They are pieces of the text, one after another
/// without overlap. A character that stands alone is a word by itself, and no word is
/// cut in two: where one ends at the start of the next, one of the characters that meet
/// there stands alone.
pub proof fn law_the_words_of_a_text(text: Seq<char>, classes: Seq<bool>, ranges: Seq<(int, int)>)
    requires
        classes.len() == text.len(),
        ranges == words(text, classes, 0),
    ensures
        forall|i: int|
            0 <= i < ranges.len() ==> 0 <= (#[trigger] ranges[i]).0 < ranges[i].1 <= text.len(),
        forall|i: int, j: int|
            0 <= i < j < ranges.len() ==> (#[trigger] ranges[i]).1 <= (#[trigger] ranges[j]).0,
        forall|p: int|
            #![trigger text[p]]
            #![trigger classes[p]]
            0 <= p < text.len() && (classes[p] || stands_alone(text[p]) || (joins(
                text[p],
            ) && 0 < p < text.len() - 1 && classes[p - 1] && classes[p + 1] && !stands_alone(
                text[p - 1],
            ) && !stands_alone(text[p + 1]))) ==> exists|i: int|
                0 <= i < ranges.len() && (#[trigger] ranges[i]).0 <= p < ranges[i].1,
        forall|i: int, p: int|
            0 <= i < ranges.len() && (#[trigger] ranges[i]).0 <= p < ranges[i].1 ==> (classes[p]
                || stands_alone(#[trigger] text[p]) || (joins(text[p]) && 0 < p < text.len() - 1
                && classes[p - 1] && classes[p + 1] && !stands_alone(text[p - 1])
                && !stands_alone(text[p + 1]))),
        forall|i: int, p: int|
            0 <= i < ranges.len() && (#[trigger] ranges[i]).0 < p < ranges[i].1 ==> !stands_alone(
                #[trigger] text[p],
            ) && !stands_alone(text[p - 1]),
        forall|i: int|
            0 <= i < ranges.len() - 1 && (#[trigger] ranges[i]).1 == ranges[i + 1].0
                ==> stands_alone(text[ranges[i].1 - 1]) || stands_alone(text[ranges[i].1]),
{
    lemma_words_from(text, classes, 0);
    assert forall|p: int|
        #![trigger text[p]]
        #![trigger classes[p]]
        0 <= p < text.len() && (classes[p] || stands_alone(text[p]) || (joins(text[p])
            && 0 < p < text.len() - 1 && classes[p - 1] && classes[p + 1] && !stands_alone(
            text[p - 1],
        ) && !stands_alone(text[p + 1]))) implies exists|i: int|
        0 <= i < ranges.len() && (#[trigger] ranges[i]).0 <= p < ranges[i].1 by {
        assert(kept(text, classes, p));
    }
    assert forall|i: int, p: int|
        0 <= i < ranges.len() && (#[trigger] ranges[i]).0 <= p < ranges[i].1 implies (classes[p]
        || stands_alone(#[trigger] text[p]) || (joins(text[p]) && 0 < p < text.len() - 1
        && classes[p - 1] && classes[p + 1] && !stands_alone(text[p - 1]) && !stands_alone(
        text[p + 1],
    ))) by {
        assert(kept(text, classes, p));
    }
}

proof fn lemma_joined(pieces: Seq<Seq<char>>)
    ensures
        joined(pieces) == pieces.flatten(),
    decreases pieces.len(),
{
    if pieces.len() > 0 {
        assert(pieces.skip(1) =~= pieces.drop_first());
        lemma_joined(pieces.skip(1));
    }
}

/// A term is its word, lowercased, as far as there is room for it. Of a word in ASCII it
/// is the word with each capital made small, up to 255 bytes. Of any other it is the
/// start of the encoding of what its characters map to, one after another: the whole
/// where that has no more than 255 bytes, and otherwise the longest start of no more
/// that is still text.
pub proof fn law_a_term_is_its_word(word: Seq<char>, lowers: Seq<Seq<char>>)
    ensures
        ({
            let term = term_of(word, lowers);
            if forall|i: int| 0 <= i < word.len() ==> (#[trigger] word[i]) as u32 <= 127 {
                &&& term.len() == if word.len() <= 255 {
                    word.len()
                } else {
                    255
                }
                &&& forall|i: int|
                    0 <= i < term.len() ==> #[trigger] term[i] == if 65 <= word[i] as u32 <= 90 {
                        word[i] as u32 + 32
                    } else {
                        word[i] as u32 as int
                    }
            } else {
                let whole = encode_utf8(lowers.flatten());
                &&& term == whole.take(term.len() as int)
                &&& whole.len() <= 255 ==> term == whole
                &&& whole.len() > 255 ==> term.len() <= 255 && valid_utf8(term)
                &&& forall|n: int|
                    term.len() < n <= 255 && n <= whole.len() ==> !valid_utf8(
                        #[trigger] whole.take(n),
                    )
            }
        }),
{
    let bytes = lowered_bytes(word, lowers);
    lemma_joined(lowers);
    if forall|i: int| 0 <= i < word.len() ==> (#[trigger] word[i]) as u32 <= 127 {
        assert forall|i: int| 0 <= i < bytes.len() implies #[trigger] bytes[i] == (if 65
            <= word[i] as u32 <= 90 {
            word[i] as u32 + 32
        } else {
            word[i] as u32 as int
        }) && bytes[i] <= 127 by {
            lemma_small(word[i]);
        }
        if bytes.len() > 255 {
            lemma_not_continuing(bytes[255]);
            lemma_boundary_past(bytes, 255, 255);
            lemma_boundary(bytes, 255);
        }
    } else {
        encode_utf8_valid_utf8(joined(lowers));
        assert(bytes.take(bytes.len() as int) =~= bytes);
        if bytes.len() > 255 {
            super::lemma_cut(bytes);
            let cut = boundary(bytes, 255);
            assert forall|n: int| cut < n <= 255 implies !valid_utf8(#[trigger] bytes.take(n)) by {
                if valid_utf8(bytes.take(n)) {
                    let rest = bytes.subrange(n, bytes.len() as int);
                    assert(bytes.take(n) =~= bytes.subrange(0, n));
                    if !valid_utf8(rest) {
                        partial_valid_partial_invalid_utf8(bytes, n);
                    }
                    assert(rest[0] == bytes[n]);
                    vstd::utf8::is_char_boundary_start_end_of_seq(rest);
                    vstd::utf8::is_char_boundary_iff_not_is_continuation_byte(rest, 0);
                    lemma_boundary_past(bytes, 255, n);
                }
            }
        }
    }
}

proof fn lemma_small(ch: char)
    requires
        ch as u32 <= 127,
    ensures
        super::ascii_lower(ch) == (if 65 <= ch as u32 <= 90 {
            ch as u32 + 32
        } else {
            ch as u32 as int
        }),
        super::ascii_lower(ch) <= 127,
{
}

proof fn lemma_not_continuing(byte: u8)
    requires
        byte <= 127,
    ensures
        !is_continuation_byte(byte),
{
}

/// Every word of a text gives its term, in order, and nothing else does.
pub proof fn law_each_word_gives_its_term(text: Seq<char>, i: int)
    ensures
        ({
            let ranges = words(text, super::classes_of(text), 0);
            let word = text.subrange(ranges[i].0, ranges[i].1);
            &&& terms_of(text).len() == ranges.len()
            &&& 0 <= i < ranges.len() ==> terms_of(text)[i] == term_of(
                word,
                word.map_values(|ch: char| super::lowercase(ch)),
            )
            &&& forall|p: int|
                0 <= p < text.len() ==> super::classes_of(text)[p] == super::alphanumeric(
                    #[trigger] text[p],
                )
        }),
{
    let ranges = words(text, super::classes_of(text), 0);
    if 0 <= i < ranges.len() {
        let word = text.subrange(ranges[i].0, ranges[i].1);
        assert(lowers_of(word) =~= word.map_values(|ch: char| super::lowercase(ch)));
    }
}

} // verus!
