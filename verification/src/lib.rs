//! A substrate for incremental text-annotation pipelines: a tokenized line
//! carries a multi-indexed store of span attributes, and annotation passes
//! run one after another, each reading the attributes written by earlier
//! passes and contributing new ones of its own kind.

pub mod assoc;
pub mod attrs;
pub mod clause_keyword;
pub mod create_tokens;
pub mod display;
pub mod finish_with;
pub mod laws;
pub mod ll_line;
pub mod ll_selection;
pub mod p_tokens;
pub mod resolvers;
pub mod type_bucket;
pub mod type_id_to_many;
pub mod x;

pub use attrs::{AttrData, AttrDataV, AttrKind, TextTag};
pub use clause_keyword::{ClauseKeyword, ClauseKeywordResolver};
pub use create_tokens::{create_line_from_input_tokens, create_tokens, is_spaces, is_word,
    InputToken, InputTokenV};
pub use display::LLLineDisplay;
pub use finish_with::FinishWith;
pub use ll_line::{LLCursorAssignment, LLLine, LLLineFind, LLToken, LToken, PipelineError,
    Resolver};
pub use ll_selection::LLSelection;
pub use resolvers::TextMatchAssignResolver;
pub use type_bucket::AnyAttribute;

use vstd::prelude::*;

use crate::create_tokens::{expected_tokens, group_assigns_upto, pos_step, size_of_sizer,
    text_widths_ok};
use crate::ll_line::{insert_assignments, seed_attrs, LTokenV};

verus! {

/// How many bytes one character takes in UTF-8, by its code point, as
/// the encoding defines it.
pub open spec fn utf8_char_len(c: char) -> int {
    if (c as u32) < 0x80 {
        1
    } else if (c as u32) < 0x800 {
        2
    } else if (c as u32) < 0x10000 {
        3
    } else {
        4
    }
}

/// The UTF-8 byte length of a string: the sum of its characters' encoded
/// lengths.
pub open spec fn utf8_len_of(s: Seq<char>) -> int
    decreases s.len(),
{
    if s.len() == 0 {
        0
    } else {
        utf8_len_of(s.drop_last()) + utf8_char_len(s.last())
    }
}

/// Relies on `str::len`: a string's byte length is the sum of its
/// characters' UTF-8 encoded lengths.
#[verifier::external_body]
fn str_byte_len(s: &str) -> (r: usize)
    ensures
        r == utf8_len_of(s@),
{
    s.len()
}

/// Simpler, less featureful version of [`create_line_from_input_tokens`]
/// which uses the text's byte count as its width.
pub fn create_line_from_string(input_string: &str) -> (r: LLLine)
    requires
        input_string@.len() > 0,
    ensures
        r.wf(),
        r@.tokens.len() == expected_tokens(
            seq![crate::create_tokens::InputTokenV::Text(input_string@, Seq::empty())],
        ).len(),
        forall|i: int|
            0 <= i < r@.tokens.len() ==> (#[trigger] r@.tokens[i]).token == expected_tokens(
                seq![crate::create_tokens::InputTokenV::Text(input_string@, Seq::empty())],
            )[i],
        r@.tokens.len() > 0 ==> r@.tokens[0].pos_starts_at == 0,
        forall|i: int|
            1 <= i < r@.tokens.len() ==> (#[trigger] r@.tokens[i]).pos_starts_at == r@.tokens[i
                - 1].pos_ends_at,
        forall|i: int|
            0 <= i < r@.tokens.len() ==> (match (#[trigger] r@.tokens[i]).token {
                LTokenV::Text(txt, _) => 0 <= utf8_len_of(txt) <= usize::MAX
                    && r@.tokens[i].pos_ends_at == pos_step(
                    r@.tokens[i].pos_starts_at,
                    utf8_len_of(txt) as usize,
                ),
                LTokenV::Value => true,
            }),
        r@.attrs == insert_assignments(
            seed_attrs(r@.tokens, r@.tokens.len(), r@.tokens.len() as int),
            group_assigns_upto(
                seq![crate::create_tokens::InputTokenV::Text(input_string@, Seq::empty())],
                1,
            ),
        ),
{
    let text = input_string.to_owned();
    let token = InputToken::text(text, Vec::new());
    let mut units: Vec<InputToken> = Vec::new();
    units.push(token);
    let ghost iv = units.deep_view();
    proof {
        assert(iv =~~= seq![
            crate::create_tokens::InputTokenV::Text(input_string@, Seq::<
                crate::attrs::AttrDataV,
            >::empty()),
        ]);
    }
    let sizer = |s: &str| -> (l: usize)
        ensures
            l == utf8_len_of(s@),
        { str_byte_len(s) };
    let line = create_line_from_input_tokens(units, sizer);
    proof {
        assert forall|i: int| 0 <= i < line@.tokens.len() implies (match (
        #[trigger] line@.tokens[i]).token {
            LTokenV::Text(txt, _) => 0 <= utf8_len_of(txt) <= usize::MAX
                && line@.tokens[i].pos_ends_at == pos_step(
                line@.tokens[i].pos_starts_at,
                utf8_len_of(txt) as usize,
            ),
            LTokenV::Value => true,
        }) by {
            assert(text_widths_ok(sizer, line@.tokens));
            match line@.tokens[i].token {
                LTokenV::Text(txt, _) => {
                    let w = choose|w: usize|
                        size_of_sizer(sizer, txt, w) && line@.tokens[i].pos_ends_at == pos_step(
                            line@.tokens[i].pos_starts_at,
                            w,
                        );
                    let witness = choose|s: &str| s@ == txt && call_ensures(sizer, (s,), w);
                    assert(w == utf8_len_of(witness@));
                },
                LTokenV::Value => {},
            }
        }
    }
    line
}

/// Shorthand of [`LLLineDisplay::new`].
pub fn debug_line<'a>(ll_line: &'a LLLine) -> (r: LLLineDisplay<'a>)
    requires
        ll_line.wf(),
    ensures
        r.line() == ll_line@,
        r.includes() == Seq::<(crate::type_id_to_many::LRange, Seq<char>)>::empty(),
        r.wf(),
{
    LLLineDisplay::new(ll_line)
}

} // verus!
