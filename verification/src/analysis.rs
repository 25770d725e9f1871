//! Turning text into the terms an index is built from.
//!
//! This is the first thing that touches a document and the last thing that
//! touches a query, and both sides have to agree, so there is one function here
//! and both call it.
//!
//! A term is a run of alphanumeric characters, lowercased. An apostrophe with a
//! word on both sides holds it together, and a character of a script that is
//! written without spaces is a term of its own. There is no stemming and no
//! stop word list.
use vstd::prelude::*;
use vstd::utf8::{
    encode_utf8, encode_utf8_valid_utf8, is_char_boundary,
    is_char_boundary_iff_not_is_continuation_byte, is_continuation_byte, is_leading_byte_width_1,
    length_of_first_scalar, partial_valid_utf8, partial_valid_utf8_extend_ascii_block,
    pop_first_scalar, valid_utf8, valid_utf8_split,
};

pub mod laws;

verus! {

/// The longest term this will produce, in bytes after lowercasing.
///
/// A term longer than this is truncated at a character boundary rather than
/// dropped, which keeps a prefix that can still be matched while keeping the
/// dictionary from growing without a bound.
pub const MAX_TERM_BYTES: usize = 255;

/// What `char::is_alphanumeric` says of a character.
pub uninterp spec fn alphanumeric(ch: char) -> bool;

/// What `char::to_lowercase` maps a character to.
pub uninterp spec fn lowercase(ch: char) -> Seq<char>;

/// The standard library's `char::is_alphanumeric`: a fixed property of the
/// character, named by [`alphanumeric`].
#[verifier::external_body]
fn is_alphanumeric(ch: char) -> (yes: bool)
    ensures
        yes == alphanumeric(ch),
{
    ch.is_alphanumeric()
}

/// The standard library's `char::to_lowercase`: a fixed mapping from a character
/// to one or more, named by [`lowercase`].
#[verifier::external_body]
fn to_lowercase(ch: char) -> (lower: Vec<char>)
    ensures
        lower@ == lowercase(ch),
        lower@.len() >= 1,
{
    ch.to_lowercase().collect()
}

/// The UTF-8 encoding of one character.
fn encode_char(ch: char) -> (bytes: Vec<u8>)
    ensures
        bytes@ == encode_utf8(seq![ch]),
{
    let c: u32 = ch as u32;
    let mut bytes: Vec<u8> = Vec::new();
    if c < 0x80 {
        bytes.push((c & 0x7f) as u8);
    } else {
        if c < 0x800 {
            bytes.push(0xc0 | ((c >> 6) & 0x1f) as u8);
        } else {
            if c < 0x10000 {
                bytes.push(0xe0 | ((c >> 12) & 0x0f) as u8);
            } else {
                bytes.push(0xf0 | ((c >> 18) & 0x07) as u8);
                bytes.push(0x80 | ((c >> 12) & 0x3f) as u8);
            }
            bytes.push(0x80 | ((c >> 6) & 0x3f) as u8);
        }
        bytes.push(0x80 | (c & 0x3f) as u8);
    }
    proof {
        reveal_with_fuel(encode_utf8, 2);
        assert(seq![ch].drop_first() =~= Seq::<char>::empty());
        assert(bytes@ =~= vstd::utf8::encode_scalar(c));
    }
    bytes
}

// ---------------------------------------------------------------------------
// What the terms of a text are.
// ---------------------------------------------------------------------------

/// Whether a character is its own term regardless of what surrounds it.
pub open spec fn stands_alone(ch: char) -> bool {
    let c = ch as u32;
    ||| 0x3040 <= c <= 0x30ff
    ||| 0x3400 <= c <= 0x4dbf
    ||| 0x4e00 <= c <= 0x9fff
    ||| 0xf900 <= c <= 0xfaff
}

/// Whether a character holds a word together when a word is on both sides.
pub open spec fn joins(ch: char) -> bool {
    ch as u32 == 0x27 || ch as u32 == 0x2019
}

/// What `char::is_alphanumeric` says of each character of a text.
pub open spec fn classes_of(text: Seq<char>) -> Seq<bool> {
    text.map_values(|ch: char| alphanumeric(ch))
}

/// Whether the character at `at` belongs to a word, where `classes` says which
/// characters are alphanumeric.
pub open spec fn in_word(text: Seq<char>, classes: Seq<bool>, at: int) -> bool {
    at < text.len() && classes[at] && !stands_alone(text[at])
}

/// Where the word that has reached `at` ends.
pub open spec fn word_end(text: Seq<char>, classes: Seq<bool>, at: int) -> int
    decreases text.len() - at,
{
    if at >= text.len() {
        at
    } else if in_word(text, classes, at) || (joins(text[at]) && in_word(text, classes, at + 1)) {
        word_end(text, classes, at + 1)
    } else {
        at
    }
}

pub proof fn lemma_word_end(text: Seq<char>, classes: Seq<bool>, at: int)
    requires
        at <= text.len(),
    ensures
        at <= word_end(text, classes, at) <= text.len(),
    decreases text.len() - at,
{
    if at < text.len() && (in_word(text, classes, at) || (joins(text[at]) && in_word(
        text,
        classes,
        at + 1,
    ))) {
        lemma_word_end(text, classes, at + 1);
    }
}

/// Where the words of the text from `at` on start and end.
pub open spec fn words(text: Seq<char>, classes: Seq<bool>, at: int) -> Seq<(int, int)>
    decreases text.len() - at,
    when at >= 0
    via words_decreases
{
    if at >= text.len() {
        Seq::empty()
    } else if stands_alone(text[at]) {
        seq![(at, at + 1)] + words(text, classes, at + 1)
    } else if !classes[at] {
        words(text, classes, at + 1)
    } else {
        let end = word_end(text, classes, at + 1);
        seq![(at, end)] + words(text, classes, end)
    }
}

#[via_fn]
proof fn words_decreases(text: Seq<char>, classes: Seq<bool>, at: int) {
    if at < text.len() {
        lemma_word_end(text, classes, at + 1);
    }
}

/// A word is a piece of the text.
proof fn lemma_words_inside(text: Seq<char>, classes: Seq<bool>, at: int, i: int)
    requires
        0 <= at,
        0 <= i < words(text, classes, at).len(),
    ensures
        at <= words(text, classes, at)[i].0 < words(text, classes, at)[i].1 <= text.len(),
    decreases text.len() - at,
{
    if at < text.len() {
        if stands_alone(text[at]) {
            if i > 0 {
                lemma_words_inside(text, classes, at + 1, i - 1);
            }
        } else if !classes[at] {
            lemma_words_inside(text, classes, at + 1, i);
        } else {
            let end = word_end(text, classes, at + 1);
            lemma_word_end(text, classes, at + 1);
            if i > 0 {
                lemma_words_inside(text, classes, end, i - 1);
            }
        }
    }
}

/// What `char::to_lowercase` maps each character of a word to.
pub open spec fn lowers_of(word: Seq<char>) -> Seq<Seq<char>> {
    word.map_values(|ch: char| lowercase(ch))
}

/// Some texts one after another.
pub open spec fn joined(pieces: Seq<Seq<char>>) -> Seq<char>
    decreases pieces.len(),
{
    if pieces.len() == 0 {
        Seq::empty()
    } else {
        pieces[0] + joined(pieces.skip(1))
    }
}

pub open spec fn all_ascii(word: Seq<char>) -> bool {
    forall|i: int| 0 <= i < word.len() ==> (#[trigger] word[i]) as u32 <= 127
}

/// An ASCII character as a byte, with `A` to `Z` made `a` to `z`.
pub open spec fn ascii_lower(ch: char) -> u8 {
    if 65 <= ch as u32 <= 90 {
        (ch as u32 + 32) as u8
    } else {
        ch as u8
    }
}

/// A word's bytes, lowercased, where `lowers` is what each of its characters maps
/// to.
pub open spec fn lowered_bytes(word: Seq<char>, lowers: Seq<Seq<char>>) -> Seq<u8> {
    if all_ascii(word) {
        Seq::new(word.len(), |i: int| ascii_lower(word[i]))
    } else {
        encode_utf8(joined(lowers))
    }
}

/// The last place at or before `at` where a character starts.
pub open spec fn boundary(bytes: Seq<u8>, at: int) -> int
    decreases at,
{
    if at > 0 && is_continuation_byte(bytes[at]) {
        boundary(bytes, at - 1)
    } else {
        at
    }
}

/// The term of a word: its bytes lowercased, cut at a character boundary if
/// they are too many.
pub open spec fn term_of(word: Seq<char>, lowers: Seq<Seq<char>>) -> Seq<u8> {
    let bytes = lowered_bytes(word, lowers);
    if bytes.len() > 255 {
        bytes.take(boundary(bytes, 255))
    } else {
        bytes
    }
}

/// The terms of a text, in order.
pub open spec fn terms_of(text: Seq<char>) -> Seq<Seq<u8>> {
    words(text, classes_of(text), 0).map_values(
        |word: (int, int)|
            term_of(
                text.subrange(word.0, word.1),
                lowers_of(text.subrange(word.0, word.1)),
            ),
    )
}

proof fn lemma_boundary(bytes: Seq<u8>, at: int)
    requires
        0 <= at,
    ensures
        0 <= boundary(bytes, at) <= at,
    decreases at,
{
    if at > 0 && is_continuation_byte(bytes[at]) {
        lemma_boundary(bytes, at - 1);
    }
}

/// A boundary is not before a place where a character starts.
proof fn lemma_boundary_past(bytes: Seq<u8>, at: int, start: int)
    requires
        0 <= start <= at,
        !is_continuation_byte(bytes[start]),
    ensures
        start <= boundary(bytes, at),
    decreases at,
{
    if at > start && is_continuation_byte(bytes[at]) {
        lemma_boundary_past(bytes, at - 1, start);
    }
}

/// At a boundary a character starts, or nothing is before it.
proof fn lemma_boundary_starts(bytes: Seq<u8>, at: int)
    requires
        0 <= at,
    ensures
        boundary(bytes, at) == 0 || !is_continuation_byte(bytes[boundary(bytes, at)]),
    decreases at,
{
    if at > 0 && is_continuation_byte(bytes[at]) {
        lemma_boundary_starts(bytes, at - 1);
    }
}

/// Text that is too long still holds its first character once it is cut.
proof fn lemma_cut(bytes: Seq<u8>)
    requires
        valid_utf8(bytes),
        bytes.len() > 255,
    ensures
        valid_utf8(bytes.take(boundary(bytes, 255))),
        1 <= boundary(bytes, 255) <= 255,
{
    let first = length_of_first_scalar(bytes);
    let rest = pop_first_scalar(bytes);
    assert(1 <= first <= 4);
    assert(rest.len() > 0 && rest[0] == bytes[first]);
    assert(valid_utf8(rest));
    lemma_boundary_past(bytes, 255, first);
    lemma_boundary(bytes, 255);
    lemma_boundary_starts(bytes, 255);
    let at = boundary(bytes, 255);
    is_char_boundary_iff_not_is_continuation_byte(bytes, at);
    assert(is_char_boundary(bytes, at));
    valid_utf8_split(bytes, at);
    assert(bytes.take(at) =~= bytes.subrange(0, at));
}

proof fn lemma_ascii_lower(ch: char)
    requires
        ch as u32 <= 127,
    ensures
        ascii_lower(ch) <= 127,
{
}

/// The term of a word is text, and there is something in it.
///
/// What the characters map to is asked of a word that is not ASCII: that each of
/// them maps to something.
pub proof fn law_a_term_is_text(word: Seq<char>, lowers: Seq<Seq<char>>)
    requires
        word.len() > 0,
        all_ascii(word) || (lowers.len() > 0 && lowers[0].len() > 0),
    ensures
        valid_utf8(term_of(word, lowers)),
        1 <= term_of(word, lowers).len() <= MAX_TERM_BYTES,
{
    let bytes = lowered_bytes(word, lowers);
    if all_ascii(word) {
        assert forall|i: int| 0 <= i < bytes.len() implies is_leading_byte_width_1(
            #[trigger] bytes[i],
        ) by {
            assert(word[i] as u32 <= 127);
            lemma_ascii_lower(word[i]);
        }
        assert(bytes.subrange(0, 0) =~= Seq::<u8>::empty());
        assert(partial_valid_utf8(bytes, 0));
        partial_valid_utf8_extend_ascii_block(bytes, 0, bytes.len() as int);
        assert(bytes.subrange(0, bytes.len() as int) =~= bytes);
    } else {
        encode_utf8_valid_utf8(joined(lowers));
        assert(joined(lowers)[0] == lowers[0][0]);
    }
    if bytes.len() > 255 {
        lemma_cut(bytes);
    }
}

/// No term is longer than the limit.
pub proof fn law_terms_are_bounded(text: Seq<char>, i: int)
    requires
        0 <= i < terms_of(text).len(),
    ensures
        terms_of(text)[i].len() <= MAX_TERM_BYTES,
{
    let (start, end) = words(text, classes_of(text), 0)[i];
    let word = text.subrange(start, end);
    lemma_boundary(lowered_bytes(word, lowers_of(word)), 255);
}

proof fn lemma_words_len(text: Seq<char>, classes: Seq<bool>, at: int)
    requires
        0 <= at <= text.len(),
    ensures
        words(text, classes, at).len() <= text.len() - at,
    decreases text.len() - at,
{
    if at < text.len() {
        lemma_word_end(text, classes, at + 1);
        if stands_alone(text[at]) || !classes[at] {
            lemma_words_len(text, classes, at + 1);
        } else {
            lemma_words_len(text, classes, word_end(text, classes, at + 1));
        }
    }
}

/// A text has no more terms than characters.
pub proof fn law_no_more_terms_than_characters(text: Seq<char>)
    ensures
        terms_of(text).len() <= text.len(),
{
    lemma_words_len(text, classes_of(text), 0);
}

// ---------------------------------------------------------------------------
// Producing them.
// ---------------------------------------------------------------------------

/// Whether a character is its own term regardless of what surrounds it.
///
/// Han and kana are written without spaces, so a run of them would otherwise
/// become one term as long as the sentence, which is a term that matches
/// nothing.
fn standalone(ch: char) -> (yes: bool)
    ensures
        yes == stands_alone(ch),
{
    let c: u32 = ch as u32;
    (0x3040 <= c && c <= 0x30ff) || (0x3400 <= c && c <= 0x4dbf) || (0x4e00 <= c && c <= 0x9fff)
        || (0xf900 <= c && c <= 0xfaff)
}

/// Whether a character holds a word together when a word is on both sides.
///
/// Without this, `don't` becomes `don` and `t`, and `t` is a term that appears
/// in a good fraction of English documents and means nothing in any of them.
fn joiner(ch: char) -> (yes: bool)
    ensures
        yes == joins(ch),
{
    let c: u32 = ch as u32;
    c == 0x27 || c == 0x2019
}

/// Whether a word continues at `at`, which is what a joiner has to see ahead of
/// it to be kept.
fn continues(text: &Vec<char>, classes: &Vec<bool>, at: usize) -> (yes: bool)
    requires
        classes@.len() == text@.len(),
    ensures
        yes == in_word(text@, classes@, at as int),
{
    at < text.len() && classes[at] && !standalone(text[at])
}

/// Places as they are counted.
pub open spec fn places(ranges: Seq<(usize, usize)>) -> Seq<(int, int)> {
    ranges.map_values(|range: (usize, usize)| (range.0 as int, range.1 as int))
}

/// Where the words of a text start and end, where `classes` says which of its
/// characters are alphanumeric.
pub fn split(text: &Vec<char>, classes: &Vec<bool>) -> (ranges: Vec<(usize, usize)>)
    requires
        classes@.len() == text@.len(),
    ensures
        places(ranges@) == words(text@, classes@, 0),
        forall|p: int|
            #![trigger text@[p]]
            #![trigger classes@[p]]
            0 <= p < text@.len() && (classes@[p] || stands_alone(text@[p])) ==> exists|i: int|
                0 <= i < ranges@.len() && (#[trigger] ranges@[i]).0 <= p < ranges@[i].1,
        forall|i: int, j: int|
            0 <= i < j < ranges@.len() ==> (#[trigger] ranges@[i]).1 <= (#[trigger] ranges@[j]).0,
{
    let mut ranges: Vec<(usize, usize)> = Vec::new();
    let mut at: usize = 0;
    let ghost all = words(text@, classes@, 0);
    assert(places(ranges@) + all =~= all);
    while at < text.len()
        invariant
            at <= text@.len(),
            classes@.len() == text@.len(),
            all == words(text@, classes@, 0),
            places(ranges@) + words(text@, classes@, at as int) == all,
        decreases text.len() - at,
    {
        let ghost had = places(ranges@);
        let ch: char = text[at];
        let start: usize = at;
        if standalone(ch) {
            at = at + 1;
            ranges.push((start, at));
            proof {
                assert(places(ranges@) =~= had.push((start as int, at as int)));
                assert(places(ranges@) + words(text@, classes@, at as int) =~= had + words(
                    text@,
                    classes@,
                    start as int,
                ));
            }
            continue;
        }
        if !classes[at] {
            at = at + 1;
            continue;
        }
        at = at + 1;
        while at < text.len() && (continues(text, classes, at) || (joiner(text[at]) && continues(
            text,
            classes,
            at + 1,
        )))
            invariant
                start < at <= text@.len(),
                classes@.len() == text@.len(),
                word_end(text@, classes@, at as int) == word_end(text@, classes@, start + 1),
            decreases text.len() - at,
        {
            at = at + 1;
        }
        ranges.push((start, at));
        proof {
            assert(at == word_end(text@, classes@, start + 1));
            assert(places(ranges@) =~= had.push((start as int, at as int)));
            assert(places(ranges@) + words(text@, classes@, at as int) =~= had + words(
                text@,
                classes@,
                start as int,
            ));
        }
    }
    assert(places(ranges@) =~= places(ranges@) + words(text@, classes@, at as int));
    proof {
        let found = places(ranges@);
        laws::law_the_words_of_a_text(text@, classes@, found);
        assert forall|p: int|
            #![trigger text@[p]]
            #![trigger classes@[p]]
            0 <= p < text@.len() && (classes@[p] || stands_alone(text@[p])) implies exists|i: int|
            0 <= i < ranges@.len() && (#[trigger] ranges@[i]).0 <= p < ranges@[i].1 by {
            let i = choose|i: int| 0 <= i < found.len() && (#[trigger] found[i]).0 <= p < found[i].1;
            assert(ranges@[i].0 == found[i].0);
        }
        assert forall|i: int, j: int| 0 <= i < j < ranges@.len() implies (#[trigger] ranges@[i]).1
            <= (#[trigger] ranges@[j]).0 by {
            assert(found[i].1 <= found[j].0);
        }
    }
    ranges
}

/// What `char::is_alphanumeric` says of each character of a text.
fn classes(text: &Vec<char>) -> (classes: Vec<bool>)
    ensures
        classes@ == classes_of(text@),
{
    let mut classes: Vec<bool> = Vec::new();
    while classes.len() < text.len()
        invariant
            classes@.len() <= text@.len(),
            classes@ == classes_of(text@).take(classes@.len() as int),
        decreases text.len() - classes.len(),
    {
        let next: bool = is_alphanumeric(text[classes.len()]);
        proof {
            lemma_take_push(classes_of(text@), classes@.len() as int);
        }
        classes.push(next);
    }
    assert(classes_of(text@).take(text@.len() as int) =~= classes_of(text@));
    classes
}

/// The characters of a text.
fn characters(text: &str) -> (out: Vec<char>)
    ensures
        out@ == text@,
{
    let mut out: Vec<char> = Vec::new();
    for ch in iter: text.chars()
        invariant
            out@ == iter.seq().take(iter.index() as int),
            iter.seq() == text@,
    {
        out.push(ch);
    }
    assert(text@.take(text@.len() as int) =~= text@);
    out
}

/// The bytes of each of some terms.
pub open spec fn contents(terms: Seq<Vec<u8>>) -> Seq<Seq<u8>> {
    terms.map_values(|term: Vec<u8>| term@)
}

pub(crate) proof fn lemma_contents_push(terms: Seq<Vec<u8>>, term: Vec<u8>)
    ensures
        contents(terms.push(term)) == contents(terms).push(term@),
{
    assert(contents(terms.push(term)) =~= contents(terms).push(term@));
}

pub(crate) proof fn lemma_take_push<T>(s: Seq<T>, n: int)
    requires
        0 <= n < s.len(),
    ensures
        s.take(n + 1) == s.take(n).push(s[n]),
{
    assert(s.take(n + 1) =~= s.take(n).push(s[n]));
}

/// Texts by their characters.
pub open spec fn spelled(texts: Seq<Vec<char>>) -> Seq<Seq<char>> {
    texts.map_values(|text: Vec<char>| text@)
}

/// Whether every character of a word is ASCII.
fn is_ascii(word: &Vec<char>) -> (yes: bool)
    ensures
        yes == all_ascii(word@),
{
    let mut i: usize = 0;
    while i < word.len()
        invariant
            i <= word@.len(),
            forall|k: int| 0 <= k < i ==> (#[trigger] word@[k]) as u32 <= 127,
        decreases word.len() - i,
    {
        if word[i] as u32 > 127 {
            return false;
        }
        i = i + 1;
    }
    true
}

/// A reusable buffer for turning text into terms.
#[derive(Debug)]
pub struct Analyzer {
    term: Vec<u8>,
}

impl Default for Analyzer {
    fn default() -> (analyzer: Self)
        ensures
            analyzer.buffer() == Seq::<u8>::empty(),
    {
        Analyzer { term: Vec::new() }
    }
}

impl Analyzer {
    /// What is left in the buffer that terms are built in. No result depends on it.
    pub closed spec fn buffer(&self) -> Seq<u8> {
        self.term@
    }

    /// Creates an analyser with its buffer already sized for the longest term.
    pub fn new() -> (analyzer: Self)
        ensures
            analyzer.buffer() == Seq::<u8>::empty(),
    {
        Analyzer { term: Vec::with_capacity(MAX_TERM_BYTES) }
    }

    /// The terms of `text`, in order. The place of a term in the result is its
    /// position, and how many there are is the field length that BM25 needs.
    pub fn analyze(&mut self, text: &str) -> (terms: Vec<Vec<u8>>)
        ensures
            contents(terms@) == terms_of(text@),
            forall|i: int|
                0 <= i < terms@.len() ==> valid_utf8((#[trigger] terms@[i])@) && 1
                    <= terms@[i]@.len() <= MAX_TERM_BYTES,
    {
        let chars = characters(text);
        let classes = classes(&chars);
        let ranges = split(&chars, &classes);
        let mut out: Vec<Vec<u8>> = Vec::new();
        let ghost all = words(text@, classes_of(text@), 0);
        assert(contents(out@) =~= terms_of(text@).take(0));
        assert(places(ranges@).len() == ranges@.len());
        while out.len() < ranges.len()
            invariant
                chars@ == text@,
                all == words(text@, classes_of(text@), 0),
                places(ranges@) == all,
                ranges@.len() == all.len(),
                out@.len() <= ranges@.len(),
                contents(out@) == terms_of(text@).take(out@.len() as int),
                forall|i: int|
                    0 <= i < out@.len() ==> valid_utf8((#[trigger] out@[i])@) && 1
                        <= out@[i]@.len() <= MAX_TERM_BYTES,
            decreases ranges.len() - out.len(),
        {
            let (start, end) = ranges[out.len()];
            let ghost found = out@.len() as int;
            proof {
                assert(places(ranges@)[found] == (start as int, end as int));
                lemma_words_inside(text@, classes_of(text@), 0, found);
            }
            let word = vstd::slice::slice_to_vec(
                vstd::slice::slice_subrange(chars.as_slice(), start, end),
            );
            let lowers = self.lowers(&word);
            let term = self.emit(&word, &lowers);
            proof {
                law_a_term_is_text(word@, spelled(lowers@));
                assert(word@ =~= text@.subrange(start as int, end as int));
                assert(lowered_bytes(word@, spelled(lowers@)) == lowered_bytes(
                    word@,
                    lowers_of(word@),
                ));
                assert(term@ == terms_of(text@)[found]);
                lemma_contents_push(out@, term);
                lemma_take_push(terms_of(text@), found);
            }
            out.push(term);
        }
        assert(terms_of(text@).take(all.len() as int) =~= terms_of(text@));
        out
    }

    /// What `char::to_lowercase` maps each character of a word to, or nothing for a
    /// word that is ASCII, which is lowercased without it.
    fn lowers(&self, word: &Vec<char>) -> (lowers: Vec<Vec<char>>)
        ensures
            all_ascii(word@) || spelled(lowers@) == lowers_of(word@),
            all_ascii(word@) || forall|i: int|
                0 <= i < word@.len() ==> (#[trigger] spelled(lowers@)[i]).len() >= 1,
    {
        let mut lowers: Vec<Vec<char>> = Vec::new();
        if is_ascii(word) {
            return lowers;
        }
        assert(spelled(lowers@) =~= lowers_of(word@).take(0));
        while lowers.len() < word.len()
            invariant
                lowers@.len() <= word@.len(),
                spelled(lowers@) == lowers_of(word@).take(lowers@.len() as int),
                forall|i: int| 0 <= i < lowers@.len() ==> (#[trigger] lowers@[i])@.len() >= 1,
            decreases word.len() - lowers.len(),
        {
            let lower = to_lowercase(word[lowers.len()]);
            proof {
                lemma_take_push(lowers_of(word@), lowers@.len() as int);
                assert(spelled(lowers@.push(lower)) =~= spelled(lowers@).push(lower@));
            }
            lowers.push(lower);
        }
        assert(lowers_of(word@).take(word@.len() as int) =~= lowers_of(word@));
        lowers
    }

    /// Lowercases one word into the buffer and hands it over as a term, where
    /// `lowers` is what each of its characters maps to. A word that is ASCII needs
    /// none.
    pub fn emit(&mut self, word: &Vec<char>, lowers: &Vec<Vec<char>>) -> (term: Vec<u8>)
        ensures
            term@ == term_of(word@, spelled(lowers@)),
    {
        self.term.clear();
        if is_ascii(word) {
            let mut i: usize = 0;
            while i < word.len()
                invariant
                    i <= word@.len(),
                    all_ascii(word@),
                    self.term@ == Seq::new(i as nat, |k: int| ascii_lower(word@[k])),
                decreases word.len() - i,
            {
                let ch: char = word[i];
                let c: u32 = ch as u32;
                let byte: u8 = if 65 <= c && c <= 90 {
                    (c + 32) as u8
                } else {
                    ch as u8
                };
                self.term.push(byte);
                i = i + 1;
                assert(self.term@ =~= Seq::new(i as nat, |k: int| ascii_lower(word@[k])));
            }
        } else {
            let ghost pieces = spelled(lowers@);
            let mut i: usize = 0;
            assert(pieces.skip(0) =~= pieces);
            while i < lowers.len()
                invariant
                    i <= lowers@.len(),
                    pieces == spelled(lowers@),
                    self.term@ + encode_utf8(joined(pieces.skip(i as int))) == encode_utf8(
                        joined(pieces),
                    ),
                decreases lowers.len() - i,
            {
                let ghost had = self.term@;
                self.encode(&lowers[i]);
                proof {
                    let rest = pieces.skip(i as int);
                    assert(rest[0] == lowers@[i as int]@);
                    assert(rest.skip(1) =~= pieces.skip(i + 1));
                    lemma_encode_add(rest[0], joined(rest.skip(1)));
                    assert(self.term@ + encode_utf8(joined(rest.skip(1))) =~= had + encode_utf8(
                        joined(rest),
                    ));
                }
                i = i + 1;
            }
            proof {
                assert(pieces.skip(pieces.len() as int) =~= Seq::<Seq<char>>::empty());
                assert(self.term@ =~= self.term@ + encode_utf8(Seq::<char>::empty()));
            }
        }
        let ghost whole = self.term@;
        assert(whole =~= lowered_bytes(word@, spelled(lowers@)));
        if self.term.len() > MAX_TERM_BYTES {
            let mut cut: usize = MAX_TERM_BYTES;
            while cut > 0 && continuation(self.term[cut])
                invariant
                    cut <= 255,
                    self.term@ == whole,
                    whole.len() > 255,
                    boundary(whole, cut as int) == boundary(whole, 255),
                decreases cut,
            {
                cut = cut - 1;
            }
            self.term.truncate(cut);
            assert(self.term@ =~= whole.take(boundary(whole, 255)));
        }
        vstd::slice::slice_to_vec(self.term.as_slice())
    }

    /// Appends the encoding of some characters to the buffer.
    fn encode(&mut self, chars: &Vec<char>)
        ensures
            final(self).term@ == old(self).term@ + encode_utf8(chars@),
    {
        let ghost before = self.term@;
        let mut i: usize = 0;
        assert(chars@.skip(0) =~= chars@);
        while i < chars.len()
            invariant
                i <= chars@.len(),
                self.term@ + encode_utf8(chars@.skip(i as int)) == before + encode_utf8(chars@),
            decreases chars.len() - i,
        {
            let ghost had = self.term@;
            let bytes = encode_char(chars[i]);
            let mut k: usize = 0;
            while k < bytes.len()
                invariant
                    k <= bytes@.len(),
                    self.term@ == had + bytes@.take(k as int),
                decreases bytes.len() - k,
            {
                self.term.push(bytes[k]);
                k = k + 1;
                assert(self.term@ =~= had + bytes@.take(k as int));
            }
            proof {
                assert(bytes@.take(k as int) =~= bytes@);
                let rest = chars@.skip(i as int);
                assert(rest =~= seq![chars@[i as int]] + chars@.skip(i + 1));
                lemma_encode_add(seq![chars@[i as int]], chars@.skip(i + 1));
                assert(self.term@ + encode_utf8(chars@.skip(i + 1)) =~= had + encode_utf8(rest));
            }
            i = i + 1;
        }
        proof {
            assert(chars@.skip(i as int) =~= Seq::<char>::empty());
            assert(self.term@ =~= self.term@ + encode_utf8(chars@.skip(i as int)));
        }
    }
}

/// Whether a byte continues a character rather than starting one.
fn continuation(byte: u8) -> (yes: bool)
    ensures
        yes == is_continuation_byte(byte),
{
    0x80 <= byte && byte <= 0xbf
}

/// The encoding of two texts one after the other is one encoding after the
/// other.
proof fn lemma_encode_add(a: Seq<char>, b: Seq<char>)
    ensures
        encode_utf8(a + b) == encode_utf8(a) + encode_utf8(b),
    decreases a.len(),
{
    if a.len() == 0 {
        assert(a + b =~= b);
        assert(encode_utf8(a) + encode_utf8(b) =~= encode_utf8(b));
    } else {
        assert((a + b).drop_first() =~= a.drop_first() + b);
        lemma_encode_add(a.drop_first(), b);
        assert(encode_utf8(a + b) =~= encode_utf8(a) + encode_utf8(b));
    }
}

} // verus!
