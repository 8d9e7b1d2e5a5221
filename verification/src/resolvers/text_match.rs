//! Assigning attributes to tokens whose text matches a lookup table.

use vstd::prelude::*;

use crate::assoc::{assoc_get, lemma_assoc_idx_first};
use crate::attrs::{AttrData, AttrDataV};
use crate::ll_line::{asgns_view, assigns_of, AssignV, LLCursorAssignment, LLLineV, LToken,
    Resolver};
use crate::ll_selection::LLSelection;
use crate::type_bucket::datas_view;

verus! {

/// The lowercase form of a string, a function of its characters alone.
pub uninterp spec fn lower_of(s: Seq<char>) -> Seq<char>;

/// Relies on `str::to_lowercase`: the result depends on the characters
/// alone.
#[verifier::external_body]
pub(crate) fn to_lowercase_str(s: &str) -> (r: String)
    ensures
        r@ == lower_of(s@),
{
    s.to_lowercase()
}

/// The lift of a lookup table to its model: each key's text paired with
/// its values.
pub open spec fn lookup_view_of(v: Seq<(String, Vec<AttrData>)>) -> Seq<(Seq<char>, Seq<
    AttrDataV,
>)> {
    Seq::new(v.len(), |i: int| (v[i].0@, datas_view(v[i].1@)))
}

/// A lookup table with every key lowercased.
pub open spec fn lowered_entries(v: Seq<(Seq<char>, Seq<AttrDataV>)>) -> Seq<(Seq<char>, Seq<
    AttrDataV,
>)> {
    Seq::new(v.len(), |i: int| (lower_of(v[i].0), v[i].1))
}

/// The assignments the resolver produces over boundaries in
/// `[start, upto)`: for each text token, by ascending index, one
/// assignment on that token alone per value stored under its (possibly
/// lowercased) text.
pub open spec fn text_match_assigns(
    line: LLLineV,
    lookup: Seq<(Seq<char>, Seq<AttrDataV>)>,
    case_sensitive: bool,
    start: usize,
    upto: int,
) -> Seq<AssignV>
    decreases upto - start,
{
    if upto <= start {
        Seq::empty()
    } else {
        text_match_assigns(line, lookup, case_sensitive, start, upto - 1) + (match line.tokens[upto
            - 1].token {
            crate::ll_line::LTokenV::Text(s, _) => assigns_of(
                (upto - 1) as usize,
                (upto - 1) as usize,
                assoc_get(
                    lookup,
                    if case_sensitive {
                        s
                    } else {
                        lower_of(s)
                    },
                    Seq::empty(),
                ),
            ),
            crate::ll_line::LTokenV::Value => Seq::empty(),
        })
    }
}

/// Useful for name matching: assigns each key's values to every token
/// whose text equals the key, optionally ignoring case.
pub struct TextMatchAssignResolver {
    case_sensitive: bool,
    // one entry per matched token text
    lookup: Vec<(String, Vec<AttrData>)>,
}

impl TextMatchAssignResolver {
    /// The configured lookup table.
    pub closed spec fn lookup_entries(&self) -> Seq<(Seq<char>, Seq<AttrDataV>)> {
        lookup_view_of(self.lookup@)
    }

    /// Whether probed token texts are compared as they stand.
    pub closed spec fn is_case_sensitive(&self) -> bool {
        self.case_sensitive
    }

    /// Case-sensitive matching against the lookup keys.
    pub fn new(lookup: Vec<(String, Vec<AttrData>)>) -> (r: Self)
        ensures
            r.is_case_sensitive(),
            r.lookup_entries() == lookup_view_of(lookup@),
    {
        TextMatchAssignResolver { case_sensitive: true, lookup }
    }

    /// Case-insensitive matching: keys are lowercased once here, and each
    /// probed token text is lowercased before lookup.
    pub fn new_case_insensitive(lookup: Vec<(String, Vec<AttrData>)>) -> (r: Self)
        ensures
            !r.is_case_sensitive(),
            r.lookup_entries() == lowered_entries(lookup_view_of(lookup@)),
    {
        let ghost inv = lookup_view_of(lookup@);
        let mut rest = lookup;
        let mut lowered: Vec<(String, Vec<AttrData>)> = Vec::new();
        let ghost mut done: int = 0;
        while rest.len() > 0
            invariant
                0 <= done,
                done + rest@.len() == inv.len(),
                lowered@.len() == done,
                forall|q: int|
                    0 <= q < rest@.len() ==> ((#[trigger] rest@[q]).0@ == inv[done + q].0
                        && datas_view(rest@[q].1@) == inv[done + q].1),
                forall|q: int|
                    0 <= q < done ==> ((#[trigger] lowered@[q]).0@ == lower_of(inv[q].0)
                        && datas_view(lowered@[q].1@) == inv[q].1),
            decreases rest@.len(),
        {
            let (key, vals) = rest.remove(0);
            lowered.push((to_lowercase_str(key.as_str()), vals));
            proof {
                done = done + 1;
            }
        }
        let r = TextMatchAssignResolver { case_sensitive: false, lookup: lowered };
        proof {
            assert(r.lookup_entries() =~~= lowered_entries(inv));
        }
        r
    }

    /// The values stored under `key` (under its first entry, when several
    /// carry one key), cloned; empty when no entry does.
    fn lookup_values(&self, key: &String) -> (r: Vec<AttrData>)
        ensures
            datas_view(r@) == assoc_get(self.lookup_entries(), key@, Seq::empty()),
    {
        let ghost lv = self.lookup_entries();
        let n = self.lookup.len();
        let mut i: usize = 0;
        while i < n
            invariant
                n == self.lookup@.len(),
                i <= n,
                lv == self.lookup_entries(),
                forall|j: int| 0 <= j < i ==> (#[trigger] lv[j]).0 != key@,
            decreases n - i,
        {
            let e = &self.lookup[i].0;
            if *e == *key {
                proof {
                    lemma_assoc_idx_first(lv, key@, i as int);
                }
                return crate::x::copy_attr_datas(&self.lookup[i].1);
            }
            i += 1;
        }
        proof {
            lemma_assoc_idx_first(lv, key@, n as int);
        }
        let out: Vec<AttrData> = Vec::new();
        proof {
            assert(datas_view(out@) =~= assoc_get(lv, key@, Seq::<AttrDataV>::empty()));
        }
        out
    }
}

impl Resolver for TextMatchAssignResolver {
    fn go(&self, selection: LLSelection) -> (out: Vec<LLCursorAssignment>)
        ensures
            asgns_view(out@) == text_match_assigns(
                selection@.line,
                self.lookup_entries(),
                self.is_case_sensitive(),
                selection@.start_idx,
                selection@.end_idx + 1,
            ),
            forall|i: int|
                0 <= i < out@.len() ==> (#[trigger] out@[i])@.start_idx <= out@[i]@.end_idx
                    < selection@.line.tokens.len(),
    {
        let ghost linev = selection@.line;
        let ghost lv = self.lookup_entries();
        let ghost cs = self.is_case_sensitive();
        let mut out: Vec<LLCursorAssignment> = Vec::new();
        let line = selection.line_ref();
        let (sel_start, sel_end) = selection.bounds();
        let mut i: usize = sel_start;
        proof {
            assert(asgns_view(out@) =~= text_match_assigns(
                linev,
                lv,
                cs,
                selection@.start_idx,
                selection@.start_idx as int,
            ));
        }
        while i <= sel_end
            invariant
                selection@.wf(),
                linev == selection@.line,
                line@ == linev,
                sel_end == selection@.end_idx,
                lv == self.lookup_entries(),
                cs == self.is_case_sensitive(),
                selection@.start_idx <= i <= selection@.end_idx + 1,
                asgns_view(out@) == text_match_assigns(
                    linev,
                    lv,
                    cs,
                    selection@.start_idx,
                    i as int,
                ),
                forall|q: int|
                    0 <= q < out@.len() ==> (#[trigger] out@[q])@.start_idx <= out@[q]@.end_idx
                        < linev.tokens.len(),
            decreases selection@.end_idx + 1 - i,
        {
            let ghost pre = asgns_view(out@);
            match &line.token_at(i).token {
                LToken::Text(text, _) => {
                    let values = if self.case_sensitive {
                        self.lookup_values(text)
                    } else {
                        self.lookup_values(&to_lowercase_str(text.as_str()))
                    };
                    let ghost key = if cs {
                        text@
                    } else {
                        lower_of(text@)
                    };
                    let ghost vv = datas_view(values@);
                    proof {
                        assert(vv == assoc_get(lv, key, Seq::<AttrDataV>::empty()));
                    }
                    let mut rest = values;
                    let ghost mut v_done: int = 0;
                    proof {
                        assert(asgns_view(out@) =~= pre + assigns_of(i, i, vv.take(0)));
                    }
                    while rest.len() > 0
                        invariant
                            0 <= v_done,
                            v_done + rest@.len() == vv.len(),
                            forall|q: int|
                                0 <= q < rest@.len() ==> (#[trigger] rest@[q])@ == vv[v_done + q],
                            i < linev.tokens.len(),
                            asgns_view(out@) == pre + assigns_of(i, i, vv.take(v_done)),
                            forall|q: int|
                                0 <= q < out@.len() ==> (#[trigger] out@[q])@.start_idx <= out@[
                                    q
                                ]@.end_idx < linev.tokens.len(),
                        decreases rest@.len(),
                    {
                        let value = rest.remove(0);
                        let ghost gval = value@;
                        let ghost pre_out = asgns_view(out@);
                        out.push(LLCursorAssignment::from_parts(i, i, value));
                        proof {
                            v_done = v_done + 1;
                            assert(gval == vv[v_done - 1]);
                            assert(asgns_view(out@) =~~= pre_out.push(
                                AssignV { start_idx: i, end_idx: i, value: gval },
                            ));
                            assert(assigns_of(i, i, vv.take(v_done)) =~~= assigns_of(
                                i,
                                i,
                                vv.take(v_done - 1),
                            ).push(AssignV { start_idx: i, end_idx: i, value: gval }));
                            assert(asgns_view(out@) =~~= pre + assigns_of(i, i, vv.take(v_done)));
                        }
                    }
                    proof {
                        assert(vv.take(vv.len() as int) =~= vv);
                        assert(asgns_view(out@) == pre + assigns_of(i, i, vv));
                    }
                },
                LToken::Value => {},
            }
            i += 1;
            proof {
                assert(asgns_view(out@) =~~= text_match_assigns(
                    linev,
                    lv,
                    cs,
                    selection@.start_idx,
                    i as int,
                ));
            }
        }
        out
    }
}

} // verus!
