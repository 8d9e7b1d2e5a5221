//! Tagging clause keywords: condition starters, "and", and "then".

use vstd::prelude::*;

use crate::attrs::{AttrData, AttrDataV};
use crate::ll_line::{asgns_view, AssignV, LLCursorAssignment, LLLineV, LToken, Resolver};
use crate::ll_selection::LLSelection;
use crate::resolvers::text_match::{lower_of, to_lowercase_str};

verus! {

/// The role a keyword token plays in clause segmentation.
#[derive(Clone, Copy, Debug, PartialEq, Eq, Structural)]
pub enum ClauseKeyword {
    /// "if", "when"
    ConditionStart,
    /// "then"
    Then,
    /// "and"
    And,
}

impl ClauseKeyword {
    /// The keyword's textual form.
    pub fn label(&self) -> (r: String)
        ensures
            r@ == (match *self {
                ClauseKeyword::ConditionStart => "ConditionStart"@,
                ClauseKeyword::Then => "Then"@,
                ClauseKeyword::And => "And"@,
            }),
    {
        match self {
            ClauseKeyword::ConditionStart => String::from_str("ConditionStart"),
            ClauseKeyword::Then => String::from_str("Then"),
            ClauseKeyword::And => String::from_str("And"),
        }
    }

    /// The keyword as an attribute value of the given custom kind.
    pub fn as_attr(&self, kind: u64) -> (r: AttrData)
        ensures
            r@ == AttrDataV::Custom(
                kind,
                match *self {
                    ClauseKeyword::ConditionStart => "ConditionStart"@,
                    ClauseKeyword::Then => "Then"@,
                    ClauseKeyword::And => "And"@,
                },
            ),
    {
        AttrData::Custom(kind, self.label())
    }
}

/// Whether one of the strings is `t`.
pub open spec fn contains_text(v: Seq<String>, t: Seq<char>) -> bool {
    exists|q: int| 0 <= q < v.len() && (#[trigger] v[q])@ == t
}

/// The keyword a lowercased token text earns, by priority: a
/// condition-start word first, a "then" word next, an "and" word last.
pub open spec fn keyword_pick(
    cond_start: Seq<String>,
    and_words: Seq<String>,
    then_words: Seq<String>,
    low: Seq<char>,
) -> Option<ClauseKeyword> {
    if contains_text(cond_start, low) {
        Some(ClauseKeyword::ConditionStart)
    } else if contains_text(then_words, low) {
        Some(ClauseKeyword::Then)
    } else if contains_text(and_words, low) {
        Some(ClauseKeyword::And)
    } else {
        None
    }
}

/// The textual form of a keyword.
pub open spec fn keyword_label(k: ClauseKeyword) -> Seq<char> {
    match k {
        ClauseKeyword::ConditionStart => "ConditionStart"@,
        ClauseKeyword::Then => "Then"@,
        ClauseKeyword::And => "And"@,
    }
}

/// The assignments the resolver produces over boundaries in
/// `[start, upto)`: one single-token assignment per text token whose
/// lowercased text is a configured keyword, by ascending index.
pub open spec fn keyword_assigns(
    line: LLLineV,
    cond_start: Seq<String>,
    and_words: Seq<String>,
    then_words: Seq<String>,
    kind: u64,
    start: usize,
    upto: int,
) -> Seq<AssignV>
    decreases upto - start,
{
    if upto <= start {
        Seq::empty()
    } else {
        keyword_assigns(line, cond_start, and_words, then_words, kind, start, upto - 1) + (match
        line.tokens[upto - 1].token {
            crate::ll_line::LTokenV::Text(s, _) => match keyword_pick(
                cond_start,
                and_words,
                then_words,
                lower_of(s),
            ) {
                Some(k) => seq![
                    AssignV {
                        start_idx: (upto - 1) as usize,
                        end_idx: (upto - 1) as usize,
                        value: AttrDataV::Custom(kind, keyword_label(k)),
                    },
                ],
                None => Seq::empty(),
            },
            crate::ll_line::LTokenV::Value => Seq::empty(),
        })
    }
}

/// Tags every token whose lowercased text is one of the configured
/// keyword lists, under the given custom attribute kind.
pub struct ClauseKeywordResolver {
    cond_start: Vec<String>,
    and_words: Vec<String>,
    then_words: Vec<String>,
    kind: u64,
}

impl ClauseKeywordResolver {
    /// The configured condition-start words.
    pub closed spec fn cond_start_words(&self) -> Seq<String> {
        self.cond_start@
    }

    /// The configured "and" words.
    pub closed spec fn and_list(&self) -> Seq<String> {
        self.and_words@
    }

    /// The configured "then" words.
    pub closed spec fn then_list(&self) -> Seq<String> {
        self.then_words@
    }

    /// The custom kind the keyword attributes are written under.
    pub closed spec fn keyword_kind(&self) -> u64 {
        self.kind
    }

    /// A resolver for the given keyword lists, writing attributes of the
    /// given custom kind.
    pub fn new(
        cond_start: Vec<String>,
        and_words: Vec<String>,
        then_words: Vec<String>,
        kind: u64,
    ) -> (r: Self)
        ensures
            r.cond_start_words() == cond_start@,
            r.and_list() == and_words@,
            r.then_list() == then_words@,
            r.keyword_kind() == kind,
    {
        ClauseKeywordResolver { cond_start, and_words, then_words, kind }
    }

    /// The keyword `low` earns, by the configured lists' priority.
    fn pick(&self, low: &String) -> (r: Option<ClauseKeyword>)
        ensures
            r == keyword_pick(
                self.cond_start_words(),
                self.and_list(),
                self.then_list(),
                low@,
            ),
    {
        if contains_string(&self.cond_start, low) {
            Some(ClauseKeyword::ConditionStart)
        } else if contains_string(&self.then_words, low) {
            Some(ClauseKeyword::Then)
        } else if contains_string(&self.and_words, low) {
            Some(ClauseKeyword::And)
        } else {
            None
        }
    }
}

/// Whether one of the strings equals `key`.
fn contains_string(v: &Vec<String>, key: &String) -> (r: bool)
    ensures
        r == contains_text(v@, key@),
{
    let n = v.len();
    let mut i: usize = 0;
    while i < n
        invariant
            n == v@.len(),
            i <= n,
            forall|q: int| 0 <= q < i ==> (#[trigger] v@[q])@ != key@,
        decreases n - i,
    {
        let e = &v[i];
        if *e == *key {
            return true;
        }
        i += 1;
    }
    false
}

impl Resolver for ClauseKeywordResolver {
    fn go(&self, selection: LLSelection) -> (out: Vec<LLCursorAssignment>)
        ensures
            asgns_view(out@) == keyword_assigns(
                selection@.line,
                self.cond_start_words(),
                self.and_list(),
                self.then_list(),
                self.keyword_kind(),
                selection@.start_idx,
                selection@.end_idx + 1,
            ),
            forall|i: int|
                0 <= i < out@.len() ==> (#[trigger] out@[i])@.start_idx <= out@[i]@.end_idx
                    < selection@.line.tokens.len(),
    {
        let ghost linev = selection@.line;
        let ghost cond = self.cond_start_words();
        let ghost ands = self.and_list();
        let ghost thens = self.then_list();
        let ghost kd = self.keyword_kind();
        let mut out: Vec<LLCursorAssignment> = Vec::new();
        let line = selection.line_ref();
        let (sel_start, sel_end) = selection.bounds();
        let mut i: usize = sel_start;
        proof {
            assert(asgns_view(out@) =~= keyword_assigns(
                linev,
                cond,
                ands,
                thens,
                kd,
                selection@.start_idx,
                selection@.start_idx as int,
            ));
        }
        while i <= sel_end
            invariant
                selection@.wf(),
                linev == selection@.line,
                line@ == linev,
                sel_end == selection@.end_idx,
                cond == self.cond_start_words(),
                ands == self.and_list(),
                thens == self.then_list(),
                kd == self.keyword_kind(),
                selection@.start_idx <= i <= selection@.end_idx + 1,
                asgns_view(out@) == keyword_assigns(
                    linev,
                    cond,
                    ands,
                    thens,
                    kd,
                    selection@.start_idx,
                    i as int,
                ),
                forall|q: int|
                    0 <= q < out@.len() ==> (#[trigger] out@[q])@.start_idx <= out@[q]@.end_idx
                        < linev.tokens.len(),
            decreases selection@.end_idx + 1 - i,
        {
            let ghost pre = asgns_view(out@);
            match &line.token_at(i).token {
                LToken::Text(text, _) => {
                    let lowered = to_lowercase_str(text.as_str());
                    match self.pick(&lowered) {
                        Some(keyword) => {
                            let value = keyword.as_attr(self.kind);
                            out.push(LLCursorAssignment::from_parts(i, i, value));
                            proof {
                                assert(asgns_view(out@) =~~= pre.push(
                                    AssignV {
                                        start_idx: i,
                                        end_idx: i,
                                        value: AttrDataV::Custom(
                                            kd,
                                            keyword_label(keyword),
                                        ),
                                    },
                                ));
                            }
                        },
                        None => {},
                    }
                },
                LToken::Value => {},
            }
            i += 1;
            proof {
                assert(asgns_view(out@) =~~= keyword_assigns(
                    linev,
                    cond,
                    ands,
                    thens,
                    kd,
                    selection@.start_idx,
                    i as int,
                ));
            }
        }
        out
    }
}

} // verus!
