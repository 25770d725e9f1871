//! What each error says.
use crate::codec::lemma_divide;
use crate::error::Error;
use vstd::arithmetic::power::{lemma_pow0, lemma_pow1, pow};
use vstd::prelude::*;

verus! {

/// A digit of a number in base sixteen or below.
pub open spec fn digit(value: nat) -> Seq<char> {
    if value == 0 {
        "0"@
    } else if value == 1 {
        "1"@
    } else if value == 2 {
        "2"@
    } else if value == 3 {
        "3"@
    } else if value == 4 {
        "4"@
    } else if value == 5 {
        "5"@
    } else if value == 6 {
        "6"@
    } else if value == 7 {
        "7"@
    } else if value == 8 {
        "8"@
    } else if value == 9 {
        "9"@
    } else if value == 10 {
        "a"@
    } else if value == 11 {
        "b"@
    } else if value == 12 {
        "c"@
    } else if value == 13 {
        "d"@
    } else if value == 14 {
        "e"@
    } else {
        "f"@
    }
}

/// A number in base ten.
pub open spec fn decimal(value: nat) -> Seq<char>
    decreases value,
{
    if value < 10 {
        digit(value)
    } else {
        decimal(value / 10) + digit(value % 10)
    }
}

/// The last `width` digits of a number in base sixteen.
pub open spec fn digits(value: nat, width: nat) -> Seq<char>
    decreases width,
{
    if width == 0 {
        ""@
    } else {
        digits(value / 16, (width - 1) as nat) + digit(value % 16)
    }
}

/// A number in base sixteen as messages give it.
pub open spec fn hex(value: nat, width: nat) -> Seq<char> {
    "0x"@ + digits(value, width)
}

/// What an error says.
pub open spec fn message_of(error: Error) -> Seq<char> {
    match error {
        Error::Truncated { needed, available } => {
            "input ended early: needed "@ + decimal(needed as nat) + " bytes, "@
                + decimal(available as nat) + " left"@
        },
        Error::Overflow => "variable length integer did not terminate"@,
        Error::BadMagic => "not a kura file"@,
        Error::UnsupportedVersion { found, expected } => {
            "format version "@ + decimal(found as nat)
                + " is not readable by this build, which writes "@ + decimal(expected as nat)
        },
        Error::ChecksumMismatch { stored, computed } => {
            "checksum mismatch: stored "@ + hex(stored as nat, 8) + ", computed "@
                + hex(computed as nat, 8)
        },
        Error::Xxh3Mismatch { stored, computed } => {
            "checksum mismatch: stored "@ + hex(stored as nat, 32) + ", computed "@
                + hex(computed as nat, 32)
        },
        Error::NoManifest => "neither manifest slot is readable"@,
        Error::TooManySegments { count } => {
            "manifest claims "@ + decimal(count as nat)
                + " segments, which is more than one slot holds"@
        },
        Error::UnsupportedPageSize { found, expected } => {
            "page size "@ + decimal(found as nat) + " is not the "@ + decimal(expected as nat)
                + " this build uses"@
        },
        Error::BadRecord { length } => {
            "a log record cannot be "@ + decimal(length as nat) + " bytes long"@
        },
        Error::UnknownRecord { kind, position } => {
            "the log holds a record of kind "@ + decimal(kind as nat) + " at "@
                + decimal(position as nat) + " that this build cannot apply"@
        },
        Error::LogFull { needed, free } => {
            "log record needs "@ + decimal(needed as nat) + " bytes and "@
                + decimal(free as nat) + " are free"@
        },
        Error::BadPositions { head, tail } => {
            "log head "@ + decimal(head as nat) + " and tail "@ + decimal(tail as nat)
                + " do not describe a ring"@
        },
        Error::TooManyDocuments { count } => {
            "these segments hold "@ + decimal(count as nat)
                + " documents between them, which is more than one search can number"@
        },
        Error::StaleGeneration { offset, committed, given } => {
            "a commit puts the segment at "@ + decimal(offset as nat)
                + " back to tombstone generation "@ + decimal(given as nat) + " from "@
                + decimal(committed as nat)
        },
        Error::RepeatedSegment { at } => {
            "one commit names segment "@ + decimal(at as nat) + " twice"@
        },
        Error::StaleView { read, committed } => {
            "this batch was built on epoch "@ + decimal(read as nat) + " and the store is at "@
                + decimal(committed as nat)
        },
        Error::NoSuchDocument { doc, documents } => {
            "a deletion names document "@ + decimal(doc as nat) + " in a segment of "@
                + decimal(documents as nat) + " documents"@
        },
        Error::DimensionMismatch { left, right } => {
            "vectors of different lengths: "@ + decimal(left as nat) + " and "@
                + decimal(right as nat)
        },
        Error::NotSorted { at } => "input is not ascending at "@ + decimal(at as nat),
        Error::BadCardinality { stated, found } => {
            "a container of "@ + decimal(stated as nat) + " members holds "@
                + decimal(found as nat)
        },
        Error::BadOffset { stated, found } => {
            "a container said it starts at "@ + decimal(stated as nat) + " and starts at "@
                + decimal(found as nat)
        },
        Error::BadPrefix { shared, available } => {
            "term shares "@ + decimal(shared as nat) + " bytes with a term that is only "@
                + decimal(available as nat) + " long"@
        },
        Error::DuplicateSection { kind } => {
            "section kind "@ + decimal(kind as nat) + " appears more than once"@
        },
        Error::TooManySections { count } => {
            "segment claims "@ + decimal(count as nat)
                + " sections, which is more than the format allows"@
        },
        Error::SectionOutOfRange { kind, offset, length } => {
            let end = if offset + length > u64::MAX {
                u64::MAX as nat
            } else {
                (offset + length) as nat
            };
            "section kind "@ + decimal(kind as nat) + " claims bytes "@ + decimal(offset as nat)
                + ".."@ + decimal(end) + " which are not in the segment"@
        },
        Error::BadFooter => "this segment does not end in a footer"@,
        Error::BodyLengthMismatch { header, footer } => {
            "the header says the body is "@ + decimal(header as nat)
                + " bytes and the footer says "@ + decimal(footer as nat)
        },
        Error::SectionChecksumMismatch { kind, stored, computed } => {
            "section kind "@ + decimal(kind as nat) + " does not match its checksum: stored "@
                + hex(stored as nat, 32) + ", computed "@ + hex(computed as nat, 32)
        },
        Error::BadBlock => "a compressed block does not decode to what it should"@,
        Error::MissingSection { kind } => {
            "the segment has no section of kind "@ + decimal(kind as nat)
        },
        Error::UncarriedSection { kind } => {
            "a section of kind "@ + decimal(kind as nat) + " cannot be carried across"@
        },
    }
}

/// The text of a digit.
fn digit_text(value: u8) -> (text: &'static str)
    requires
        value < 16,
    ensures
        text@ == digit(value as nat),
{
    if value == 0 {
        "0"
    } else if value == 1 {
        "1"
    } else if value == 2 {
        "2"
    } else if value == 3 {
        "3"
    } else if value == 4 {
        "4"
    } else if value == 5 {
        "5"
    } else if value == 6 {
        "6"
    } else if value == 7 {
        "7"
    } else if value == 8 {
        "8"
    } else if value == 9 {
        "9"
    } else if value == 10 {
        "a"
    } else if value == 11 {
        "b"
    } else if value == 12 {
        "c"
    } else if value == 13 {
        "d"
    } else if value == 14 {
        "e"
    } else {
        "f"
    }
}

/// Puts a number in base ten on the end.
fn put_decimal(out: &mut String, value: u64)
    ensures
        final(out)@ == old(out)@ + decimal(value as nat),
    decreases value,
{
    if value >= 10 {
        put_decimal(out, value / 10);
    }
    out.append(digit_text((value % 10) as u8));
    assert(out@ =~= old(out)@ + decimal(value as nat));
}

fn put_digits(out: &mut String, value: u128, width: u32)
    ensures
        final(out)@ == old(out)@ + digits(value as nat, width as nat),
    decreases width,
{
    if width > 0 {
        put_digits(out, value / 16, width - 1);
        out.append(digit_text((value % 16) as u8));
    } else {
        out.append("");
    }
    assert(out@ =~= old(out)@ + digits(value as nat, width as nat));
}

/// Puts a number in base sixteen on the end.
fn put_hex(out: &mut String, value: u128, width: u32)
    ensures
        final(out)@ == old(out)@ + hex(value as nat, width as nat),
{
    out.append("0x");
    put_digits(out, value, width);
    assert(out@ =~= old(out)@ + hex(value as nat, width as nat));
}

impl Error {
    /// What the error says, for a person to read.
    pub fn message(&self) -> (text: String)
        ensures
            text@ == message_of(*self),
    {
        let mut out = String::new();
        match *self {
            Error::Truncated { needed, available } => {
                out.append("input ended early: needed ");
                put_decimal(&mut out, needed as u64);
                out.append(" bytes, ");
                put_decimal(&mut out, available as u64);
                out.append(" left");
            },
            Error::Overflow => {
                out.append("variable length integer did not terminate");
            },
            Error::BadMagic => {
                out.append("not a kura file");
            },
            Error::UnsupportedVersion { found, expected } => {
                out.append("format version ");
                put_decimal(&mut out, found as u64);
                out.append(" is not readable by this build, which writes ");
                put_decimal(&mut out, expected as u64);
            },
            Error::ChecksumMismatch { stored, computed } => {
                out.append("checksum mismatch: stored ");
                put_hex(&mut out, stored as u128, 8);
                out.append(", computed ");
                put_hex(&mut out, computed as u128, 8);
            },
            Error::Xxh3Mismatch { stored, computed } => {
                out.append("checksum mismatch: stored ");
                put_hex(&mut out, stored as u128, 32);
                out.append(", computed ");
                put_hex(&mut out, computed as u128, 32);
            },
            Error::NoManifest => {
                out.append("neither manifest slot is readable");
            },
            Error::TooManySegments { count } => {
                out.append("manifest claims ");
                put_decimal(&mut out, count as u64);
                out.append(" segments, which is more than one slot holds");
            },
            Error::UnsupportedPageSize { found, expected } => {
                out.append("page size ");
                put_decimal(&mut out, found as u64);
                out.append(" is not the ");
                put_decimal(&mut out, expected as u64);
                out.append(" this build uses");
            },
            Error::BadRecord { length } => {
                out.append("a log record cannot be ");
                put_decimal(&mut out, length as u64);
                out.append(" bytes long");
            },
            Error::UnknownRecord { kind, position } => {
                out.append("the log holds a record of kind ");
                put_decimal(&mut out, kind as u64);
                out.append(" at ");
                put_decimal(&mut out, position as u64);
                out.append(" that this build cannot apply");
            },
            Error::LogFull { needed, free } => {
                out.append("log record needs ");
                put_decimal(&mut out, needed as u64);
                out.append(" bytes and ");
                put_decimal(&mut out, free as u64);
                out.append(" are free");
            },
            Error::BadPositions { head, tail } => {
                out.append("log head ");
                put_decimal(&mut out, head as u64);
                out.append(" and tail ");
                put_decimal(&mut out, tail as u64);
                out.append(" do not describe a ring");
            },
            Error::TooManyDocuments { count } => {
                out.append("these segments hold ");
                put_decimal(&mut out, count as u64);
                out.append(" documents between them, which is more than one search can number");
            },
            Error::StaleGeneration { offset, committed, given } => {
                out.append("a commit puts the segment at ");
                put_decimal(&mut out, offset as u64);
                out.append(" back to tombstone generation ");
                put_decimal(&mut out, given as u64);
                out.append(" from ");
                put_decimal(&mut out, committed as u64);
            },
            Error::RepeatedSegment { at } => {
                out.append("one commit names segment ");
                put_decimal(&mut out, at as u64);
                out.append(" twice");
            },
            Error::StaleView { read, committed } => {
                out.append("this batch was built on epoch ");
                put_decimal(&mut out, read as u64);
                out.append(" and the store is at ");
                put_decimal(&mut out, committed as u64);
            },
            Error::NoSuchDocument { doc, documents } => {
                out.append("a deletion names document ");
                put_decimal(&mut out, doc as u64);
                out.append(" in a segment of ");
                put_decimal(&mut out, documents as u64);
                out.append(" documents");
            },
            Error::DimensionMismatch { left, right } => {
                out.append("vectors of different lengths: ");
                put_decimal(&mut out, left as u64);
                out.append(" and ");
                put_decimal(&mut out, right as u64);
            },
            Error::NotSorted { at } => {
                out.append("input is not ascending at ");
                put_decimal(&mut out, at as u64);
            },
            Error::BadCardinality { stated, found } => {
                out.append("a container of ");
                put_decimal(&mut out, stated as u64);
                out.append(" members holds ");
                put_decimal(&mut out, found as u64);
            },
            Error::BadOffset { stated, found } => {
                out.append("a container said it starts at ");
                put_decimal(&mut out, stated as u64);
                out.append(" and starts at ");
                put_decimal(&mut out, found as u64);
            },
            Error::BadPrefix { shared, available } => {
                out.append("term shares ");
                put_decimal(&mut out, shared as u64);
                out.append(" bytes with a term that is only ");
                put_decimal(&mut out, available as u64);
                out.append(" long");
            },
            Error::DuplicateSection { kind } => {
                out.append("section kind ");
                put_decimal(&mut out, kind as u64);
                out.append(" appears more than once");
            },
            Error::TooManySections { count } => {
                out.append("segment claims ");
                put_decimal(&mut out, count as u64);
                out.append(" sections, which is more than the format allows");
            },
            Error::SectionOutOfRange { kind, offset, length } => {
                out.append("section kind ");
                put_decimal(&mut out, kind as u64);
                out.append(" claims bytes ");
                put_decimal(&mut out, offset as u64);
                out.append("..");
                put_decimal(&mut out, offset.saturating_add(length));
                out.append(" which are not in the segment");
            },
            Error::BadFooter => {
                out.append("this segment does not end in a footer");
            },
            Error::BodyLengthMismatch { header, footer } => {
                out.append("the header says the body is ");
                put_decimal(&mut out, header as u64);
                out.append(" bytes and the footer says ");
                put_decimal(&mut out, footer as u64);
            },
            Error::SectionChecksumMismatch { kind, stored, computed } => {
                out.append("section kind ");
                put_decimal(&mut out, kind as u64);
                out.append(" does not match its checksum: stored ");
                put_hex(&mut out, stored as u128, 32);
                out.append(", computed ");
                put_hex(&mut out, computed as u128, 32);
            },
            Error::BadBlock => {
                out.append("a compressed block does not decode to what it should");
            },
            Error::MissingSection { kind } => {
                out.append("the segment has no section of kind ");
                put_decimal(&mut out, kind as u64);
            },
            Error::UncarriedSection { kind } => {
                out.append("a section of kind ");
                put_decimal(&mut out, kind as u64);
                out.append(" cannot be carried across");
            },
        }
        assert(out@ =~= message_of(*self));
        out
    }
}

/// Some text is in a message.
pub open spec fn gives(text: Seq<char>, part: Seq<char>) -> bool {
    exists|i: int| #![trigger text.skip(i)] 0 <= i <= text.len() && part.is_prefix_of(text.skip(i))
}

proof fn lemma_gives(text: Seq<char>, front: Seq<char>, part: Seq<char>, back: Seq<char>)
    requires
        text =~= front + part + back,
    ensures
        gives(text, part),
{
    let i = front.len() as int;
    assert(text.skip(i) =~= part + back);
    assert(part.is_prefix_of(text.skip(i)));
}

/// A message gives every number its error has.
pub proof fn law_a_message_gives_the_numbers_of_its_error(error: Error)
    ensures
        match error {
            Error::Truncated { needed, available } => {
                &&& gives(message_of(error), decimal(needed as nat))
                &&& gives(message_of(error), decimal(available as nat))
            },
            Error::UnsupportedVersion { found, expected } => {
                &&& gives(message_of(error), decimal(found as nat))
                &&& gives(message_of(error), decimal(expected as nat))
            },
            Error::ChecksumMismatch { stored, computed } => {
                &&& gives(message_of(error), hex(stored as nat, 8))
                &&& gives(message_of(error), hex(computed as nat, 8))
            },
            Error::Xxh3Mismatch { stored, computed } => {
                &&& gives(message_of(error), hex(stored as nat, 32))
                &&& gives(message_of(error), hex(computed as nat, 32))
            },
            Error::TooManySegments { count } => gives(message_of(error), decimal(count as nat)),
            Error::UnsupportedPageSize { found, expected } => {
                &&& gives(message_of(error), decimal(found as nat))
                &&& gives(message_of(error), decimal(expected as nat))
            },
            Error::BadRecord { length } => gives(message_of(error), decimal(length as nat)),
            Error::UnknownRecord { kind, position } => {
                &&& gives(message_of(error), decimal(kind as nat))
                &&& gives(message_of(error), decimal(position as nat))
            },
            Error::LogFull { needed, free } => {
                &&& gives(message_of(error), decimal(needed as nat))
                &&& gives(message_of(error), decimal(free as nat))
            },
            Error::BadPositions { head, tail } => {
                &&& gives(message_of(error), decimal(head as nat))
                &&& gives(message_of(error), decimal(tail as nat))
            },
            Error::TooManyDocuments { count } => gives(message_of(error), decimal(count as nat)),
            Error::StaleGeneration { offset, committed, given } => {
                &&& gives(message_of(error), decimal(offset as nat))
                &&& gives(message_of(error), decimal(given as nat))
                &&& gives(message_of(error), decimal(committed as nat))
            },
            Error::RepeatedSegment { at } => gives(message_of(error), decimal(at as nat)),
            Error::StaleView { read, committed } => {
                &&& gives(message_of(error), decimal(read as nat))
                &&& gives(message_of(error), decimal(committed as nat))
            },
            Error::NoSuchDocument { doc, documents } => {
                &&& gives(message_of(error), decimal(doc as nat))
                &&& gives(message_of(error), decimal(documents as nat))
            },
            Error::DimensionMismatch { left, right } => {
                &&& gives(message_of(error), decimal(left as nat))
                &&& gives(message_of(error), decimal(right as nat))
            },
            Error::NotSorted { at } => gives(message_of(error), decimal(at as nat)),
            Error::BadCardinality { stated, found } => {
                &&& gives(message_of(error), decimal(stated as nat))
                &&& gives(message_of(error), decimal(found as nat))
            },
            Error::BadOffset { stated, found } => {
                &&& gives(message_of(error), decimal(stated as nat))
                &&& gives(message_of(error), decimal(found as nat))
            },
            Error::BadPrefix { shared, available } => {
                &&& gives(message_of(error), decimal(shared as nat))
                &&& gives(message_of(error), decimal(available as nat))
            },
            Error::DuplicateSection { kind } => gives(message_of(error), decimal(kind as nat)),
            Error::TooManySections { count } => gives(message_of(error), decimal(count as nat)),
            Error::SectionOutOfRange { kind, offset, length } => {
                &&& gives(message_of(error), decimal(kind as nat))
                &&& gives(message_of(error), decimal(offset as nat))
            },
            Error::BodyLengthMismatch { header, footer } => {
                &&& gives(message_of(error), decimal(header as nat))
                &&& gives(message_of(error), decimal(footer as nat))
            },
            Error::SectionChecksumMismatch { kind, stored, computed } => {
                &&& gives(message_of(error), decimal(kind as nat))
                &&& gives(message_of(error), hex(stored as nat, 32))
                &&& gives(message_of(error), hex(computed as nat, 32))
            },
            Error::MissingSection { kind } => gives(message_of(error), decimal(kind as nat)),
            Error::UncarriedSection { kind } => gives(message_of(error), decimal(kind as nat)),
            _ => true,
        },
{
    match error {
        Error::Truncated { needed, available } => {
            lemma_gives(
                message_of(error),
                "input ended early: needed "@,
                decimal(needed as nat),
                " bytes, "@ + decimal(available as nat) + " left"@,
            );
            lemma_gives(
                message_of(error),
                "input ended early: needed "@ + decimal(needed as nat) + " bytes, "@,
                decimal(available as nat),
                " left"@,
            );
        },
        Error::UnsupportedVersion { found, expected } => {
            lemma_gives(
                message_of(error),
                "format version "@,
                decimal(found as nat),
                " is not readable by this build, which writes "@ + decimal(expected as nat),
            );
            lemma_gives(
                message_of(error),
                "format version "@ + decimal(found as nat)
                    + " is not readable by this build, which writes "@,
                decimal(expected as nat),
                Seq::<char>::empty(),
            );
        },
        Error::ChecksumMismatch { stored, computed } => {
            lemma_gives(
                message_of(error),
                "checksum mismatch: stored "@,
                hex(stored as nat, 8),
                ", computed "@ + hex(computed as nat, 8),
            );
            lemma_gives(
                message_of(error),
                "checksum mismatch: stored "@ + hex(stored as nat, 8) + ", computed "@,
                hex(computed as nat, 8),
                Seq::<char>::empty(),
            );
        },
        Error::Xxh3Mismatch { stored, computed } => {
            lemma_gives(
                message_of(error),
                "checksum mismatch: stored "@,
                hex(stored as nat, 32),
                ", computed "@ + hex(computed as nat, 32),
            );
            lemma_gives(
                message_of(error),
                "checksum mismatch: stored "@ + hex(stored as nat, 32) + ", computed "@,
                hex(computed as nat, 32),
                Seq::<char>::empty(),
            );
        },
        Error::TooManySegments { count } => {
            lemma_gives(
                message_of(error),
                "manifest claims "@,
                decimal(count as nat),
                " segments, which is more than one slot holds"@,
            );
        },
        Error::UnsupportedPageSize { found, expected } => {
            lemma_gives(
                message_of(error),
                "page size "@,
                decimal(found as nat),
                " is not the "@ + decimal(expected as nat) + " this build uses"@,
            );
            lemma_gives(
                message_of(error),
                "page size "@ + decimal(found as nat) + " is not the "@,
                decimal(expected as nat),
                " this build uses"@,
            );
        },
        Error::BadRecord { length } => {
            lemma_gives(
                message_of(error),
                "a log record cannot be "@,
                decimal(length as nat),
                " bytes long"@,
            );
        },
        Error::UnknownRecord { kind, position } => {
            lemma_gives(
                message_of(error),
                "the log holds a record of kind "@,
                decimal(kind as nat),
                " at "@ + decimal(position as nat) + " that this build cannot apply"@,
            );
            lemma_gives(
                message_of(error),
                "the log holds a record of kind "@ + decimal(kind as nat) + " at "@,
                decimal(position as nat),
                " that this build cannot apply"@,
            );
        },
        Error::LogFull { needed, free } => {
            lemma_gives(
                message_of(error),
                "log record needs "@,
                decimal(needed as nat),
                " bytes and "@ + decimal(free as nat) + " are free"@,
            );
            lemma_gives(
                message_of(error),
                "log record needs "@ + decimal(needed as nat) + " bytes and "@,
                decimal(free as nat),
                " are free"@,
            );
        },
        Error::BadPositions { head, tail } => {
            lemma_gives(
                message_of(error),
                "log head "@,
                decimal(head as nat),
                " and tail "@ + decimal(tail as nat) + " do not describe a ring"@,
            );
            lemma_gives(
                message_of(error),
                "log head "@ + decimal(head as nat) + " and tail "@,
                decimal(tail as nat),
                " do not describe a ring"@,
            );
        },
        Error::TooManyDocuments { count } => {
            lemma_gives(
                message_of(error),
                "these segments hold "@,
                decimal(count as nat),
                " documents between them, which is more than one search can number"@,
            );
        },
        Error::StaleGeneration { offset, committed, given } => {
            lemma_gives(
                message_of(error),
                "a commit puts the segment at "@,
                decimal(offset as nat),
                " back to tombstone generation "@ + decimal(given as nat) + " from "@
                    + decimal(committed as nat),
            );
            lemma_gives(
                message_of(error),
                "a commit puts the segment at "@ + decimal(offset as nat)
                    + " back to tombstone generation "@,
                decimal(given as nat),
                " from "@ + decimal(committed as nat),
            );
            lemma_gives(
                message_of(error),
                "a commit puts the segment at "@ + decimal(offset as nat)
                    + " back to tombstone generation "@ + decimal(given as nat) + " from "@,
                decimal(committed as nat),
                Seq::<char>::empty(),
            );
        },
        Error::RepeatedSegment { at } => {
            lemma_gives(
                message_of(error),
                "one commit names segment "@,
                decimal(at as nat),
                " twice"@,
            );
        },
        Error::StaleView { read, committed } => {
            lemma_gives(
                message_of(error),
                "this batch was built on epoch "@,
                decimal(read as nat),
                " and the store is at "@ + decimal(committed as nat),
            );
            lemma_gives(
                message_of(error),
                "this batch was built on epoch "@ + decimal(read as nat)
                    + " and the store is at "@,
                decimal(committed as nat),
                Seq::<char>::empty(),
            );
        },
        Error::NoSuchDocument { doc, documents } => {
            lemma_gives(
                message_of(error),
                "a deletion names document "@,
                decimal(doc as nat),
                " in a segment of "@ + decimal(documents as nat) + " documents"@,
            );
            lemma_gives(
                message_of(error),
                "a deletion names document "@ + decimal(doc as nat) + " in a segment of "@,
                decimal(documents as nat),
                " documents"@,
            );
        },
        Error::DimensionMismatch { left, right } => {
            lemma_gives(
                message_of(error),
                "vectors of different lengths: "@,
                decimal(left as nat),
                " and "@ + decimal(right as nat),
            );
            lemma_gives(
                message_of(error),
                "vectors of different lengths: "@ + decimal(left as nat) + " and "@,
                decimal(right as nat),
                Seq::<char>::empty(),
            );
        },
        Error::NotSorted { at } => {
            lemma_gives(
                message_of(error),
                "input is not ascending at "@,
                decimal(at as nat),
                Seq::<char>::empty(),
            );
        },
        Error::BadCardinality { stated, found } => {
            lemma_gives(
                message_of(error),
                "a container of "@,
                decimal(stated as nat),
                " members holds "@ + decimal(found as nat),
            );
            lemma_gives(
                message_of(error),
                "a container of "@ + decimal(stated as nat) + " members holds "@,
                decimal(found as nat),
                Seq::<char>::empty(),
            );
        },
        Error::BadOffset { stated, found } => {
            lemma_gives(
                message_of(error),
                "a container said it starts at "@,
                decimal(stated as nat),
                " and starts at "@ + decimal(found as nat),
            );
            lemma_gives(
                message_of(error),
                "a container said it starts at "@ + decimal(stated as nat) + " and starts at "@,
                decimal(found as nat),
                Seq::<char>::empty(),
            );
        },
        Error::BadPrefix { shared, available } => {
            lemma_gives(
                message_of(error),
                "term shares "@,
                decimal(shared as nat),
                " bytes with a term that is only "@ + decimal(available as nat) + " long"@,
            );
            lemma_gives(
                message_of(error),
                "term shares "@ + decimal(shared as nat) + " bytes with a term that is only "@,
                decimal(available as nat),
                " long"@,
            );
        },
        Error::DuplicateSection { kind } => {
            lemma_gives(
                message_of(error),
                "section kind "@,
                decimal(kind as nat),
                " appears more than once"@,
            );
        },
        Error::TooManySections { count } => {
            lemma_gives(
                message_of(error),
                "segment claims "@,
                decimal(count as nat),
                " sections, which is more than the format allows"@,
            );
        },
        Error::SectionOutOfRange { kind, offset, length } => {
            let end = if offset + length > u64::MAX {
                u64::MAX as nat
            } else {
                (offset + length) as nat
            };
            lemma_gives(
                message_of(error),
                "section kind "@,
                decimal(kind as nat),
                " claims bytes "@ + decimal(offset as nat) + ".."@ + decimal(end)
                    + " which are not in the segment"@,
            );
            lemma_gives(
                message_of(error),
                "section kind "@ + decimal(kind as nat) + " claims bytes "@,
                decimal(offset as nat),
                ".."@ + decimal(end) + " which are not in the segment"@,
            );
        },
        Error::BodyLengthMismatch { header, footer } => {
            lemma_gives(
                message_of(error),
                "the header says the body is "@,
                decimal(header as nat),
                " bytes and the footer says "@ + decimal(footer as nat),
            );
            lemma_gives(
                message_of(error),
                "the header says the body is "@ + decimal(header as nat)
                    + " bytes and the footer says "@,
                decimal(footer as nat),
                Seq::<char>::empty(),
            );
        },
        Error::SectionChecksumMismatch { kind, stored, computed } => {
            lemma_gives(
                message_of(error),
                "section kind "@,
                decimal(kind as nat),
                " does not match its checksum: stored "@ + hex(stored as nat, 32) + ", computed "@
                    + hex(computed as nat, 32),
            );
            lemma_gives(
                message_of(error),
                "section kind "@ + decimal(kind as nat) + " does not match its checksum: stored "@,
                hex(stored as nat, 32),
                ", computed "@ + hex(computed as nat, 32),
            );
            lemma_gives(
                message_of(error),
                "section kind "@ + decimal(kind as nat) + " does not match its checksum: stored "@
                    + hex(stored as nat, 32) + ", computed "@,
                hex(computed as nat, 32),
                Seq::<char>::empty(),
            );
        },
        Error::MissingSection { kind } => {
            lemma_gives(
                message_of(error),
                "the segment has no section of kind "@,
                decimal(kind as nat),
                Seq::<char>::empty(),
            );
        },
        Error::UncarriedSection { kind } => {
            lemma_gives(
                message_of(error),
                "a section of kind "@,
                decimal(kind as nat),
                " cannot be carried across"@,
            );
        },
        _ => {},
    }
}

/// A digit is one character: the numbers below ten are the figures, and those from ten on
/// the letters from a on.
pub proof fn law_a_digit_is_one_character(value: nat)
    requires
        value < 16,
    ensures
        digit(value).len() == 1,
        value < 10 ==> digit(value)[0] as int == '0' as int + value,
        value >= 10 ==> digit(value)[0] as int == 'a' as int + (value - 10),
{
    reveal_strlit("0");
    reveal_strlit("1");
    reveal_strlit("2");
    reveal_strlit("3");
    reveal_strlit("4");
    reveal_strlit("5");
    reveal_strlit("6");
    reveal_strlit("7");
    reveal_strlit("8");
    reveal_strlit("9");
    reveal_strlit("a");
    reveal_strlit("b");
    reveal_strlit("c");
    reveal_strlit("d");
    reveal_strlit("e");
    reveal_strlit("f");
}

/// A number in base ten is its digits, the least significant last, and does not start with
/// a zero unless it is one.
pub proof fn law_a_number_is_its_digits(value: nat, i: nat)
    ensures
        ({
            let text = decimal(value);
            &&& text.len() > 0
            &&& i < text.len() ==> text[text.len() - 1 - i] as int == '0' as int + value as int
                / pow(10, i) % 10
            &&& value as int / pow(10, text.len()) == 0
            &&& text.len() > 1 ==> text[0] != '0'
        }),
    decreases value,
{
    lemma_pow0(10);
    lemma_pow1(10);
    law_a_digit_is_one_character(value % 10);
    let text = decimal(value);
    if value >= 10 {
        let rest = decimal(value / 10);
        law_a_number_is_its_digits(
            value / 10,
            if i > 0 {
                (i - 1) as nat
            } else {
                0
            },
        );
        lemma_divide(value, 10, text.len());
        assert(text.len() == rest.len() + 1);
        assert(text[0] == rest[0]);
        if value / 10 < 10 {
            law_a_digit_is_one_character(value / 10);
        }
        if 0 < i < text.len() {
            lemma_divide(value, 10, i);
            assert(text[text.len() - 1 - i] == rest[rest.len() - 1 - (i - 1)]);
        }
    }
}

/// A number in base sixteen is as many of its last digits as it is wide, the least
/// significant last.
pub proof fn law_a_wide_number_is_its_last_digits(value: nat, width: nat, i: nat)
    requires
        i < width,
    ensures
        digits(value, width).len() == width,
        digits(value, width).subrange(width - 1 - i, width - i) == digit(
            (value as int / pow(16, i) % 16) as nat,
        ),
    decreases width,
{
    lemma_pow0(16);
    law_a_digit_is_one_character(value % 16);
    reveal_strlit("");
    let rest = digits(value / 16, (width - 1) as nat);
    if width > 1 {
        law_a_wide_number_is_its_last_digits(
            value / 16,
            (width - 1) as nat,
            if i > 0 {
                (i - 1) as nat
            } else {
                0
            },
        );
    }
    assert(rest.len() == width - 1);
    if i == 0 {
        assert(digits(value, width).subrange(width - 1, width as int) =~= digit(value % 16));
    } else {
        lemma_divide(value, 16, i);
        assert(digits(value, width).subrange(width - 1 - i, width - i) =~= rest.subrange(
            width - 1 - i,
            width - i,
        ));
    }
}

} // verus!
