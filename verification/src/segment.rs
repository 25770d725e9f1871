//! A segment as a list of sections, each with the kind that names it.
use crate::error::{Error, Result};
use vstd::prelude::*;

pub mod kind;

verus! {

/// One section of a segment.
#[derive(Debug)]
pub struct Section {
    pub kind: u16,
    pub bytes: Vec<u8>,
}

/// The sections of a segment, in the order they were written.
#[derive(Debug)]
pub struct Segment {
    pub sections: Vec<Section>,
}

/// The place of the first section of a kind.
pub open spec fn place_of(sections: Seq<Section>, kind: u16) -> Option<int>
    decreases sections.len(),
{
    if sections.len() == 0 {
        None
    } else if sections[0].kind == kind {
        Some(0)
    } else {
        match place_of(sections.skip(1), kind) {
            Some(at) => Some(at + 1),
            None => None,
        }
    }
}

/// A section of a kind is found wherever there is one, and the first of several is the
/// one that is.
pub proof fn law_the_first_section_of_a_kind_is_found(sections: Seq<Section>, kind: u16)
    ensures
        match place_of(sections, kind) {
            Some(at) => 0 <= at < sections.len() && sections[at].kind == kind && forall|i: int|
                0 <= i < at ==> (#[trigger] sections[i]).kind != kind,
            None => forall|i: int| 0 <= i < sections.len() ==> (#[trigger] sections[i]).kind != kind,
        },
    decreases sections.len(),
{
    if sections.len() > 0 && sections[0].kind != kind {
        let rest = sections.skip(1);
        law_the_first_section_of_a_kind_is_found(rest, kind);
        assert forall|i: int| 0 < i < sections.len() implies #[trigger] sections[i] == rest[i
            - 1] by {}
    }
}

impl Segment {
    /// The bytes of a section, or nothing if there is none of that kind.
    pub fn section(&self, kind: u16) -> (found: Option<&[u8]>)
        ensures
            match place_of(self.sections@, kind) {
                Some(at) => 0 <= at < self.sections@.len() && self.sections@[at].kind == kind
                    && (found matches Some(bytes) && bytes@ == self.sections@[at].bytes@),
                None => found is None,
            },
    {
        let mut i: usize = 0;
        assert(self.sections@.skip(0) =~= self.sections@);
        while i < self.sections.len()
            invariant
                i <= self.sections@.len(),
                place_of(self.sections@, kind) == match place_of(
                    self.sections@.skip(i as int),
                    kind,
                ) {
                    Some(at) => Some(at + i),
                    None => None,
                },
            decreases self.sections.len() - i,
        {
            assert(self.sections@.skip(i as int)[0] == self.sections@[i as int]);
            assert(self.sections@.skip(i as int).skip(1) =~= self.sections@.skip(i + 1));
            if self.sections[i].kind == kind {
                return Some(self.sections[i].bytes.as_slice());
            }
            i = i + 1;
        }
        None
    }

    /// The kinds of the sections, in order.
    pub fn kinds(&self) -> (kinds: Vec<u16>)
        ensures
            kinds@ == self.sections@.map_values(|section: Section| section.kind),
    {
        let mut kinds: Vec<u16> = Vec::new();
        let mut i: usize = 0;
        while i < self.sections.len()
            invariant
                i <= self.sections@.len(),
                kinds@.len() == i,
                forall|k: int| 0 <= k < i ==> #[trigger] kinds@[k] == self.sections@[k].kind,
            decreases self.sections.len() - i,
        {
            kinds.push(self.sections[i].kind);
            i = i + 1;
        }
        assert(kinds@ =~= self.sections@.map_values(|section: Section| section.kind));
        kinds
    }
}

/// Takes a section out of a segment, or says which one is missing.
pub fn section(segment: &Segment, want: u16) -> (found: Result<&[u8]>)
    ensures
        match place_of(segment.sections@, want) {
            Some(at) => 0 <= at < segment.sections@.len() && segment.sections@[at].kind == want
                && (found matches Ok(bytes) && bytes@ == segment.sections@[at].bytes@),
            None => found matches Err(e) && e == (Error::MissingSection { kind: want }),
        },
{
    match segment.section(want) {
        Some(bytes) => Ok(bytes),
        None => Err(Error::MissingSection { kind: want }),
    }
}

} // verus!
