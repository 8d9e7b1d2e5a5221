//! Fine-grained position tokens: the smallest parts of a token line,
//! each knowing its index, the position after it, and its span.

use vstd::prelude::*;

verus! {

/// A position-token index.
#[derive(Clone, Copy, Debug, PartialEq, Eq, Structural)]
pub struct PTokenAt(pub usize);

/// End bound (exclusive): before a given token, or the end of the line.
#[derive(Clone, Copy, Debug, PartialEq, Eq, Structural)]
pub enum PTokenRangeTo {
    Before(PTokenAt),
    End,
}

impl PartialOrd for PTokenRangeTo {
    fn partial_cmp(&self, other: &PTokenRangeTo) -> (r: Option<core::cmp::Ordering>) {
        match (self, other) {
            (PTokenRangeTo::Before(a), PTokenRangeTo::Before(b)) => {
                if a.0 < b.0 {
                    Some(core::cmp::Ordering::Less)
                } else if a.0 == b.0 {
                    Some(core::cmp::Ordering::Equal)
                } else {
                    Some(core::cmp::Ordering::Greater)
                }
            },
            (PTokenRangeTo::End, PTokenRangeTo::Before(_)) => Some(core::cmp::Ordering::Greater),
            (PTokenRangeTo::Before(_), PTokenRangeTo::End) => Some(core::cmp::Ordering::Less),
            (PTokenRangeTo::End, PTokenRangeTo::End) => Some(core::cmp::Ordering::Equal),
        }
    }
}

impl vstd::std_specs::cmp::PartialOrdSpecImpl for PTokenRangeTo {
    open spec fn obeys_partial_cmp_spec() -> bool {
        true
    }

    open spec fn partial_cmp_spec(&self, other: &PTokenRangeTo) -> Option<core::cmp::Ordering> {
        match (*self, *other) {
            (PTokenRangeTo::Before(a), PTokenRangeTo::Before(b)) => if a.0 < b.0 {
                Some(core::cmp::Ordering::Less)
            } else if a.0 == b.0 {
                Some(core::cmp::Ordering::Equal)
            } else {
                Some(core::cmp::Ordering::Greater)
            },
            (PTokenRangeTo::End, PTokenRangeTo::Before(_)) => Some(core::cmp::Ordering::Greater),
            (PTokenRangeTo::Before(_), PTokenRangeTo::End) => Some(core::cmp::Ordering::Less),
            (PTokenRangeTo::End, PTokenRangeTo::End) => Some(core::cmp::Ordering::Equal),
        }
    }
}

/// What one position token holds: a piece of text, an opaque atom, or an
/// opaque expression.
#[derive(Debug)]
pub enum PTokenKind {
    Text(String),
    // info about atom
    Atom {},
    // info about expression
    Expression {},
}

/// The smallest part of a token line: never a space, never both letters
/// and punctuation.
#[derive(Debug)]
pub struct PToken {
    pub kind: PTokenKind,
    /// This token's index into its containing range.
    pub index_at: PTokenAt,
    /// The position directly after this token
    pub index_to: PTokenRangeTo,
    /// Where the token's position starts
    pub from_position: usize,
    /// Where the token's position ends
    pub to_position: usize,
}

/// An immutable container of position tokens.
#[derive(Debug)]
pub struct PTokenRange(pub Vec<PToken>);

impl PToken {
    /// Package the parts of a position token.
    pub fn new(
        kind: PTokenKind,
        index_at: PTokenAt,
        index_to: PTokenRangeTo,
        from_position: usize,
        to_position: usize,
    ) -> (r: PToken)
        ensures
            r.index_at == index_at,
            r.index_to == index_to,
            r.from_position == from_position,
            r.to_position == to_position,
    {
        PToken { kind, index_at, index_to, from_position, to_position }
    }

    /// Get a reference to the token's kind.
    pub fn kind(&self) -> (r: &PTokenKind)
        ensures
            r == &self.kind,
    {
        &self.kind
    }

    /// Get a reference to the token's from position.
    pub fn from_position(&self) -> (r: &usize)
        ensures
            *r == self.from_position,
    {
        &self.from_position
    }

    /// Get a reference to the token's to position.
    pub fn to_position(&self) -> (r: &usize)
        ensures
            *r == self.to_position,
    {
        &self.to_position
    }

    /// Get a reference to the token's index location.
    pub fn token_index_at(&self) -> (r: &PTokenAt)
        ensures
            *r == self.index_at,
    {
        &self.index_at
    }

    /// Get a reference to the position after the token, which can be used
    /// to generate ranges.
    pub fn token_index_to(&self) -> (r: &PTokenRangeTo)
        ensures
            *r == self.index_to,
    {
        &self.index_to
    }
}

} // verus!
