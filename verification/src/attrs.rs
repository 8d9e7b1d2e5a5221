//! Attribute values and their kinds.
//!
//! Every attribute attached to a range of tokens is an [`AttrData`] value.
//! The store indexes attributes by their [`AttrKind`]: the two kinds the
//! engine seeds itself (a token's lexical tag, and its single character),
//! plus caller-numbered custom kinds carrying a caller-rendered label.

use vstd::prelude::*;

verus! {

/// Lexical category of a text token.
#[derive(Clone, Copy, Debug, PartialEq, Eq, Structural)]
pub enum TextTag {
    NATN,
    PUNC,
    SYMB,
    SPACE,
    WORD,
}

/// The kind under which an attribute value is indexed.
#[derive(Clone, Copy, Debug, PartialEq, Eq, Structural)]
pub enum AttrKind {
    Tag,
    Char,
    Custom(u64),
}

/// Mathematical model of an [`AttrData`] value.
#[verifier::ext_equal]
pub enum AttrDataV {
    Tag(TextTag),
    Char(char),
    Custom(u64, Seq<char>),
}

/// One attribute value: a seeded lexical tag, a seeded single character,
/// or a caller-defined value carrying its kind number and textual form.
#[derive(Debug)]
pub enum AttrData {
    Tag(TextTag),
    Char(char),
    Custom(u64, String),
}

impl View for AttrData {
    type V = AttrDataV;

    open spec fn view(&self) -> AttrDataV {
        match self {
            AttrData::Tag(t) => AttrDataV::Tag(*t),
            AttrData::Char(c) => AttrDataV::Char(*c),
            AttrData::Custom(k, s) => AttrDataV::Custom(*k, s@),
        }
    }
}

/// The kind of a modelled attribute value.
pub open spec fn kind_of(d: AttrDataV) -> AttrKind {
    match d {
        AttrDataV::Tag(_) => AttrKind::Tag,
        AttrDataV::Char(_) => AttrKind::Char,
        AttrDataV::Custom(k, _) => AttrKind::Custom(k),
    }
}

impl AttrData {
    /// The kind under which this value is indexed.
    pub fn kind(&self) -> (k: AttrKind)
        ensures
            k == kind_of(self@),
    {
        match self {
            AttrData::Tag(_) => AttrKind::Tag,
            AttrData::Char(_) => AttrKind::Char,
            AttrData::Custom(k, _) => AttrKind::Custom(*k),
        }
    }
}

impl Clone for AttrData {
    fn clone(&self) -> (r: AttrData)
        ensures
            r == *self,
    {
        match self {
            AttrData::Tag(t) => AttrData::Tag(*t),
            AttrData::Char(c) => AttrData::Char(*c),
            AttrData::Custom(k, s) => AttrData::Custom(*k, s.clone()),
        }
    }
}

impl PartialEq for AttrData {
    fn eq(&self, other: &AttrData) -> (r: bool) {
        match (self, other) {
            (AttrData::Tag(a), AttrData::Tag(b)) => *a == *b,
            (AttrData::Char(a), AttrData::Char(b)) => *a == *b,
            (AttrData::Custom(k1, s1), AttrData::Custom(k2, s2)) => *k1 == *k2 && *s1 == *s2,
            _ => false,
        }
    }
}

impl vstd::std_specs::cmp::PartialEqSpecImpl for AttrData {
    open spec fn obeys_eq_spec() -> bool {
        true
    }

    open spec fn eq_spec(&self, other: &AttrData) -> bool {
        self@ == other@
    }
}

impl Eq for AttrData {

}

} // verus!
