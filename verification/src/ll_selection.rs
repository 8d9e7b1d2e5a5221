//! The selection: a cursor over a non-empty, contiguous, inclusive range
//! of token indices of one line.
//!
//! All traversal, splitting, and matching operations are pure: they read
//! the line through shared ownership and produce new selections.

use vstd::prelude::*;

use std::rc::Rc;

use crate::attrs::AttrData;
use crate::ll_line::{rc_clone, AssignV, LLCursorAssignment, LLLine, LLLineV};
use crate::x::{eval, hits_view, lemma_eval_directional, lemma_eval_in_bounds,
    parts_view, Direction, HitV, Matcher, OutPart, OutPartV};

verus! {

/// Model of a selection: the line it reads and its inclusive bounds.
#[verifier::ext_equal]
pub struct SelectionV {
    pub line: LLLineV,
    pub start_idx: usize,
    pub end_idx: usize,
}

impl SelectionV {
    /// The bounds lie within a consistent line, and the span is not empty.
    pub open spec fn wf(self) -> bool {
        &&& self.line.wf()
        &&& self.start_idx <= self.end_idx < self.line.tokens.len()
    }
}

/// A cursor over a non-empty, contiguous, inclusive range of token
/// indices of one line.  Selections never outlive their line: they share
/// ownership of it.
pub struct LLSelection {
    pub(crate) ll_line: Rc<LLLine>,
    /// Where to begin in the line (inclusive)
    pub(crate) start_idx: usize,
    /// Where to end in the line (inclusive)
    pub(crate) end_idx: usize,
}

impl View for LLSelection {
    type V = SelectionV;

    closed spec fn view(&self) -> SelectionV {
        SelectionV { line: self.ll_line@, start_idx: self.start_idx, end_idx: self.end_idx }
    }
}

impl Clone for LLSelection {
    fn clone(&self) -> (r: LLSelection)
        ensures
            r@ == self@,
    {
        LLSelection {
            ll_line: rc_clone(&self.ll_line),
            start_idx: self.start_idx,
            end_idx: self.end_idx,
        }
    }
}

/// The lift of a found list to its model.
pub open spec fn founds_view(v: Seq<(LLSelection, Vec<OutPart>)>) -> Seq<(SelectionV, Seq<
    OutPartV,
>)> {
    Seq::new(v.len(), |i: int| (v[i].0@, parts_view(v[i].1@)))
}

/// The lift of a selection list to its model.
pub open spec fn sels_view(v: Seq<LLSelection>) -> Seq<SelectionV> {
    Seq::new(v.len(), |i: int| v[i]@)
}

/// The model of an optional selection.
pub open spec fn opt_sel_view(v: Option<LLSelection>) -> Option<SelectionV> {
    match v {
        Some(s) => Some(s@),
        None => None,
    }
}

/// Hits at boundary `i`, read forwards: each spans `[i, reached]`.
pub open spec fn hits_found_fwd(line: LLLineV, i: usize, hits: Seq<HitV>) -> Seq<(SelectionV, Seq<
    OutPartV,
>)>
    decreases hits.len(),
{
    if hits.len() == 0 {
        Seq::empty()
    } else {
        hits_found_fwd(line, i, hits.drop_last()).push(
            (
                SelectionV { line, start_idx: i, end_idx: hits.last().to },
                hits.last().parts,
            ),
        )
    }
}

/// Hits at boundary `i`, read backwards: each spans `[reached, i]`.
pub open spec fn hits_found_bwd(line: LLLineV, i: usize, hits: Seq<HitV>) -> Seq<(SelectionV, Seq<
    OutPartV,
>)>
    decreases hits.len(),
{
    if hits.len() == 0 {
        Seq::empty()
    } else {
        hits_found_bwd(line, i, hits.drop_last()).push(
            (
                SelectionV { line, start_idx: hits.last().to, end_idx: i },
                hits.last().parts,
            ),
        )
    }
}

/// All forward matches found from boundaries in `[start, upto)`, by
/// ascending boundary, then in the matcher's own order.
pub open spec fn find_by_upto(line: LLLineV, m: Matcher, start: usize, upto: int) -> Seq<(
    SelectionV,
    Seq<OutPartV>,
)>
    decreases upto - start,
{
    if upto <= start {
        Seq::empty()
    } else {
        find_by_upto(line, m, start, upto - 1) + hits_found_fwd(
            line,
            (upto - 1) as usize,
            eval(m, line, Direction::Forwards, (upto - 1) as usize),
        )
    }
}

/// What [`LLSelection::find_by`] returns.
pub open spec fn find_by_spec(sel: SelectionV, m: Matcher) -> Seq<(SelectionV, Seq<OutPartV>)> {
    find_by_upto(sel.line, m, sel.start_idx, sel.end_idx + 1)
}

/// All matches found from boundaries in `[start, upto)`, forwards then
/// backwards at each boundary.
pub open spec fn find_fb_upto(line: LLLineV, m: Matcher, start: usize, upto: int) -> Seq<(
    SelectionV,
    Seq<OutPartV>,
)>
    decreases upto - start,
{
    if upto <= start {
        Seq::empty()
    } else {
        find_fb_upto(line, m, start, upto - 1) + hits_found_fwd(
            line,
            (upto - 1) as usize,
            eval(m, line, Direction::Forwards, (upto - 1) as usize),
        ) + hits_found_bwd(
            line,
            (upto - 1) as usize,
            eval(m, line, Direction::Backwards, (upto - 1) as usize),
        )
    }
}

/// What [`LLSelection::find_by_forwards_and_backwards`] returns.
pub open spec fn find_fb_spec(sel: SelectionV, m: Matcher) -> Seq<(SelectionV, Seq<OutPartV>)> {
    find_fb_upto(sel.line, m, sel.start_idx, sel.end_idx + 1)
}

/// Hits just past the selection's end, each extending it forward.
pub open spec fn extend_fwd(sel: SelectionV, hits: Seq<HitV>) -> Seq<(SelectionV, Seq<OutPartV>)>
    decreases hits.len(),
{
    if hits.len() == 0 {
        Seq::empty()
    } else {
        extend_fwd(sel, hits.drop_last()).push(
            (
                SelectionV {
                    line: sel.line,
                    start_idx: sel.start_idx,
                    end_idx: hits.last().to,
                },
                hits.last().parts,
            ),
        )
    }
}

/// Hits just before the selection's start, each extending it backward.
pub open spec fn extend_bwd(sel: SelectionV, hits: Seq<HitV>) -> Seq<(SelectionV, Seq<OutPartV>)>
    decreases hits.len(),
{
    if hits.len() == 0 {
        Seq::empty()
    } else {
        extend_bwd(sel, hits.drop_last()).push(
            (
                SelectionV {
                    line: sel.line,
                    start_idx: hits.last().to,
                    end_idx: sel.end_idx,
                },
                hits.last().parts,
            ),
        )
    }
}

/// What [`LLSelection::match_forwards`] returns: nothing when the
/// selection already touches the line's end; otherwise one extended
/// selection per match at the position just past the end.
pub open spec fn match_forwards_spec(sel: SelectionV, m: Matcher) -> Seq<(SelectionV, Seq<
    OutPartV,
>)> {
    if sel.end_idx + 1 == sel.line.tokens.len() {
        Seq::empty()
    } else {
        extend_fwd(
            sel,
            eval(m, sel.line, Direction::Forwards, (sel.end_idx + 1) as usize),
        )
    }
}

/// What [`LLSelection::match_backwards`] returns: nothing when the
/// selection already touches the line's start; otherwise one extended
/// selection per match at the position just before the start.
pub open spec fn match_backwards_spec(sel: SelectionV, m: Matcher) -> Seq<(SelectionV, Seq<
    OutPartV,
>)> {
    if sel.start_idx == 0 {
        Seq::empty()
    } else {
        extend_bwd(
            sel,
            eval(m, sel.line, Direction::Backwards, (sel.start_idx - 1) as usize),
        )
    }
}

/// The sub-selection of `sel` clamped to `[s, e]` intersected with the
/// selection's own bounds, or nothing when that span is empty.
pub open spec fn sel_from(sel: SelectionV, s: int, e: int) -> Option<SelectionV> {
    let s2 = if s >= sel.start_idx {
        s
    } else {
        sel.start_idx as int
    };
    let e2 = if e <= sel.end_idx {
        e
    } else {
        sel.end_idx as int
    };
    if s2 <= e2 {
        Some(SelectionV { line: sel.line, start_idx: s2 as usize, end_idx: e2 as usize })
    } else {
        None
    }
}

/// An optional piece as a (possibly empty) list.
pub open spec fn opt_to_seq(v: Option<SelectionV>) -> Seq<SelectionV> {
    match v {
        Some(s) => seq![s],
        None => Seq::empty(),
    }
}


/// The matched spans of a found list.
pub open spec fn found_ranges(f: Seq<(SelectionV, Seq<OutPartV>)>) -> Seq<(usize, usize)> {
    Seq::new(f.len(), |i: int| (f[i].0.start_idx, f[i].0.end_idx))
}

/// The pieces strictly between consecutive matches, for windows up to
/// `j`: the gap before match `w` is the span after match `w - 1` and
/// before match `w`, clamped to the selection and omitted when empty.
pub open spec fn gap_pieces(sel: SelectionV, rg: Seq<(usize, usize)>, j: int) -> Seq<SelectionV>
    decreases j,
{
    if j < 1 {
        Seq::empty()
    } else {
        gap_pieces(sel, rg, j - 1) + (if rg[j].0 > 0 {
            opt_to_seq(sel_from(sel, rg[j - 1].1 + 1, rg[j].0 - 1))
        } else {
            Seq::empty()
        })
    }
}

/// What splitting at the matched spans `rg` leaves: the piece before the
/// first match, the gaps between consecutive matches, and the piece after
/// the last one; empty pieces are omitted.  With no match, the original
/// selection alone.
pub open spec fn split_by_pieces(sel: SelectionV, rg: Seq<(usize, usize)>) -> Seq<SelectionV> {
    if rg.len() == 0 {
        seq![sel]
    } else {
        let head = if rg[0].0 > 0 {
            opt_to_seq(sel_from(sel, sel.start_idx as int, rg[0].0 - 1))
        } else {
            Seq::empty()
        };
        let tail = opt_to_seq(sel_from(sel, rg.last().1 + 1, sel.end_idx as int));
        head + gap_pieces(sel, rg, rg.len() - 1) + tail
    }
}

/// What [`LLSelection::split_by`] returns.
pub open spec fn split_by_spec(sel: SelectionV, m: Matcher) -> Seq<SelectionV> {
    split_by_pieces(sel, found_ranges(find_by_spec(sel, m)))
}


/// Where the start lands after stripping a maximal matching prefix:
/// while the matcher has a match at the start whose reach stays inside
/// `[s, e]`, the start advances past the first match's reach; one
/// reaching `e` or beyond consumes the rest of the span.
pub open spec fn trim_front(line: LLLineV, m: Matcher, s: usize, e: usize) -> int
    decreases e - s,
{
    let hits = eval(m, line, Direction::Forwards, s);
    if hits.len() == 0 {
        s as int
    } else {
        let t = hits[0].to;
        if t < s {
            s as int
        } else if t >= e {
            e + 1
        } else {
            trim_front(line, m, (t + 1) as usize, e)
        }
    }
}

/// Where the end lands after stripping a maximal matching suffix.
pub open spec fn trim_back(line: LLLineV, m: Matcher, s: usize, e: usize) -> int
    decreases e - s,
{
    let hits = eval(m, line, Direction::Backwards, e);
    if hits.len() == 0 {
        e as int
    } else {
        let t = hits[0].to;
        if t > e {
            e as int
        } else if t <= s {
            s - 1
        } else {
            trim_back(line, m, s, (t - 1) as usize)
        }
    }
}

/// What [`LLSelection::trim`] returns: the selection shrunk by a maximal
/// matching prefix and suffix, or nothing when that leaves an empty span.
pub open spec fn trim_spec(sel: SelectionV, m: Matcher) -> Option<SelectionV> {
    let s2 = trim_front(sel.line, m, sel.start_idx, sel.end_idx);
    if s2 > sel.end_idx {
        None
    } else {
        let e2 = trim_back(sel.line, m, s2 as usize, sel.end_idx);
        if e2 < s2 {
            None
        } else {
            Some(SelectionV { line: sel.line, start_idx: s2 as usize, end_idx: e2 as usize })
        }
    }
}

impl LLSelection {
    /// The bounds lie within a consistent line, and the span is not
    /// empty.
    pub open spec fn wf(&self) -> bool {
        self@.wf()
    }

    /// The shared line the selection reads.
    pub(crate) fn line_ref(&self) -> (r: &LLLine)
        ensures
            r@ == self@.line,
    {
        &self.ll_line
    }

    /// The selection's inclusive bounds.
    pub(crate) fn bounds(&self) -> (r: (usize, usize))
        ensures
            r.0 == self@.start_idx,
            r.1 == self@.end_idx,
    {
        (self.start_idx, self.end_idx)
    }

    /// A selection spanning the whole line, or nothing for an empty line.
    pub fn from_line(ll_line: Rc<LLLine>) -> (r: Option<LLSelection>)
        requires
            (*ll_line).wf(),
        ensures
            ll_line@.tokens.len() > 0 ==> (r matches Some(s) && s@ == (SelectionV {
                line: ll_line@,
                start_idx: 0,
                end_idx: (ll_line@.tokens.len() - 1) as usize,
            }) && s.wf()),
            ll_line@.tokens.len() == 0 ==> r is None,
    {
        let line_len = ll_line.ll_tokens().len();
        if line_len > 0 {
            Some(LLSelection { ll_line, end_idx: line_len - 1, start_idx: 0 })
        } else {
            None  // empty selection
        }
    }

    /// For every token index inside the selection, every forward match of
    /// `matcher` starting there, paired with the selection it spans.
    pub fn find_by(&self, matcher: &Matcher) -> (r: Vec<(LLSelection, Vec<OutPart>)>)
        requires
            self.wf(),
        ensures
            founds_view(r@) == find_by_spec(self@, *matcher),
            forall|q: int|
                0 <= q < r@.len() ==> (#[trigger] r@[q]).0@.wf() && r@[q].0@.line == self@.line,
    {
        let mut out: Vec<(LLSelection, Vec<OutPart>)> = Vec::new();
        let mut i: usize = self.start_idx;
        proof {
            assert(founds_view(out@) =~= find_by_upto(
                self@.line,
                *matcher,
                self@.start_idx,
                self@.start_idx as int,
            ));
        }
        while i <= self.end_idx
            invariant
                self.wf(),
                self@.start_idx <= i <= self@.end_idx + 1,
                founds_view(out@) == find_by_upto(self@.line, *matcher, self@.start_idx, i as int),
                forall|q: int|
                    0 <= q < out@.len() ==> (#[trigger] out@[q]).0@.wf() && out@[q].0@.line
                        == self@.line,
            decreases self@.end_idx + 1 - i,
        {
            let hits = matcher.go(Direction::Forwards, i, &self.ll_line);
            proof {
                lemma_eval_in_bounds(*matcher, self@.line, Direction::Forwards, i);
                lemma_eval_directional(*matcher, self@.line, Direction::Forwards, i);
            }
            let ghost vh = hits_view(hits@);
            let ghost base = founds_view(out@);
            let nh = hits.len();
            let mut j: usize = 0;
            proof {
                assert(founds_view(out@) =~= base + hits_found_fwd(self@.line, i, vh.take(0)));
            }
            while j < nh
                invariant
                    self.wf(),
                    nh == hits@.len(),
                    j <= nh,
                    i <= self@.end_idx,
                    vh == hits_view(hits@),
                    vh == eval(*matcher, self@.line, Direction::Forwards, i),
                    founds_view(out@) == base + hits_found_fwd(self@.line, i, vh.take(j as int)),
                    forall|q: int|
                        0 <= q < out@.len() ==> (#[trigger] out@[q]).0@.wf() && out@[q].0@.line
                            == self@.line,
                decreases nh - j,
            {
                let to = hits[j].1.0;
                proof {
                    lemma_eval_in_bounds(*matcher, self@.line, Direction::Forwards, i);
                    lemma_eval_directional(*matcher, self@.line, Direction::Forwards, i);
                    assert(vh[j as int].to == to);
                    assert(to < self@.line.tokens.len());
                    assert(to >= i);
                }
                let parts = crate::x::copy_parts(&hits[j].0);
                let ghost pre_out = out@;
                let ghost newel = (
                    SelectionV { line: self@.line, start_idx: i, end_idx: vh[j as int].to },
                    vh[j as int].parts,
                );
                let ghost pj = parts_view(parts@);
                let sel = LLSelection {
                    start_idx: i,
                    end_idx: to,
                    ll_line: rc_clone(&self.ll_line),
                };
                out.push((sel, parts));
                j += 1;
                proof {
                    assert(pj == vh[j - 1].parts);
                    assert(founds_view(out@) =~~= founds_view(pre_out).push(newel));
                    assert(vh.take(j as int).drop_last() =~= vh.take(j - 1));
                    assert(vh.take(j as int).last() == vh[j - 1]);
                    assert(hits_found_fwd(self@.line, i, vh.take(j as int)) == hits_found_fwd(
                        self@.line,
                        i,
                        vh.take(j - 1),
                    ).push(newel));
                    assert(founds_view(out@) =~~= base + hits_found_fwd(
                        self@.line,
                        i,
                        vh.take(j as int),
                    ));
                }
            }
            i += 1;
            proof {
                assert(vh.take(nh as int) =~= vh);
                assert(founds_view(out@) =~~= find_by_upto(
                    self@.line,
                    *matcher,
                    self@.start_idx,
                    i as int,
                ));
            }
        }
        out
    }

    /// The first result of [`LLSelection::find_by`], if any.
    pub fn find_first_by(&self, matcher: &Matcher) -> (r: Option<(LLSelection, Vec<OutPart>)>)
        requires
            self.wf(),
        ensures
            find_by_spec(self@, *matcher).len() == 0 <==> r is None,
            r matches Some(p) ==> ((p.0@, parts_view(p.1@)) == find_by_spec(self@, *matcher)[0]
                && p.0@.wf() && p.0@.line == self@.line),
    {
        let mut found = self.find_by(matcher);
        let ghost fv = founds_view(found@);
        if found.len() > 0 {
            let first = found.remove(0);
            proof {
                assert((first.0@, parts_view(first.1@)) == fv[0]);
            }
            Some(first)
        } else {
            None
        }
    }

    /// Matches in both directions from every index inside the selection:
    /// at each index, the forward matches first, then the backward ones.
    pub fn find_by_forwards_and_backwards(&self, matcher: &Matcher) -> (r: Vec<
        (LLSelection, Vec<OutPart>),
    >)
        requires
            self.wf(),
        ensures
            founds_view(r@) == find_fb_spec(self@, *matcher),
            forall|q: int|
                0 <= q < r@.len() ==> (#[trigger] r@[q]).0@.wf() && r@[q].0@.line == self@.line,
    {
        let mut out: Vec<(LLSelection, Vec<OutPart>)> = Vec::new();
        let mut i: usize = self.start_idx;
        proof {
            assert(founds_view(out@) =~= find_fb_upto(
                self@.line,
                *matcher,
                self@.start_idx,
                self@.start_idx as int,
            ));
        }
        while i <= self.end_idx
            invariant
                self.wf(),
                self@.start_idx <= i <= self@.end_idx + 1,
                founds_view(out@) == find_fb_upto(self@.line, *matcher, self@.start_idx, i as int),
                forall|q: int|
                    0 <= q < out@.len() ==> (#[trigger] out@[q]).0@.wf() && out@[q].0@.line
                        == self@.line,
            decreases self@.end_idx + 1 - i,
        {
            let hits = matcher.go(Direction::Forwards, i, &self.ll_line);
            let ghost vh = hits_view(hits@);
            let ghost base = founds_view(out@);
            let nh = hits.len();
            let mut j: usize = 0;
            proof {
                assert(founds_view(out@) =~= base + hits_found_fwd(self@.line, i, vh.take(0)));
            }
            while j < nh
                invariant
                    self.wf(),
                    nh == hits@.len(),
                    j <= nh,
                    i <= self@.end_idx,
                    vh == hits_view(hits@),
                    vh == eval(*matcher, self@.line, Direction::Forwards, i),
                    founds_view(out@) == base + hits_found_fwd(self@.line, i, vh.take(j as int)),
                    forall|q: int|
                        0 <= q < out@.len() ==> (#[trigger] out@[q]).0@.wf() && out@[q].0@.line
                            == self@.line,
                decreases nh - j,
            {
                let to = hits[j].1.0;
                proof {
                    lemma_eval_in_bounds(*matcher, self@.line, Direction::Forwards, i);
                    lemma_eval_directional(*matcher, self@.line, Direction::Forwards, i);
                    assert(vh[j as int].to == to);
                }
                let parts = crate::x::copy_parts(&hits[j].0);
                let ghost pre_out = out@;
                let ghost newel = (
                    SelectionV { line: self@.line, start_idx: i, end_idx: vh[j as int].to },
                    vh[j as int].parts,
                );
                let ghost pj = parts_view(parts@);
                let sel = LLSelection {
                    start_idx: i,
                    end_idx: to,
                    ll_line: rc_clone(&self.ll_line),
                };
                out.push((sel, parts));
                j += 1;
                proof {
                    assert(pj == vh[j - 1].parts);
                    assert(founds_view(out@) =~~= founds_view(pre_out).push(newel));
                    assert(vh.take(j as int).drop_last() =~= vh.take(j - 1));
                    assert(vh.take(j as int).last() == vh[j - 1]);
                    assert(hits_found_fwd(self@.line, i, vh.take(j as int)) == hits_found_fwd(
                        self@.line,
                        i,
                        vh.take(j - 1),
                    ).push(newel));
                    assert(founds_view(out@) =~~= base + hits_found_fwd(
                        self@.line,
                        i,
                        vh.take(j as int),
                    ));
                }
            }
            proof {
                assert(vh.take(nh as int) =~= vh);
            }
            let bhits = matcher.go(Direction::Backwards, i, &self.ll_line);
            let ghost vb = hits_view(bhits@);
            let ghost base2 = founds_view(out@);
            let nb = bhits.len();
            let mut j2: usize = 0;
            proof {
                assert(founds_view(out@) =~= base2 + hits_found_bwd(self@.line, i, vb.take(0)));
            }
            while j2 < nb
                invariant
                    self.wf(),
                    nb == bhits@.len(),
                    j2 <= nb,
                    i <= self@.end_idx,
                    vb == hits_view(bhits@),
                    vb == eval(*matcher, self@.line, Direction::Backwards, i),
                    founds_view(out@) == base2 + hits_found_bwd(self@.line, i, vb.take(j2 as int)),
                    forall|q: int|
                        0 <= q < out@.len() ==> (#[trigger] out@[q]).0@.wf() && out@[q].0@.line
                            == self@.line,
                decreases nb - j2,
            {
                let to = bhits[j2].1.0;
                proof {
                    lemma_eval_in_bounds(*matcher, self@.line, Direction::Backwards, i);
                    lemma_eval_directional(*matcher, self@.line, Direction::Backwards, i);
                    assert(vb[j2 as int].to == to);
                }
                let parts = crate::x::copy_parts(&bhits[j2].0);
                let ghost pre_out = out@;
                let ghost newel = (
                    SelectionV { line: self@.line, start_idx: vb[j2 as int].to, end_idx: i },
                    vb[j2 as int].parts,
                );
                let ghost pj = parts_view(parts@);
                let sel = LLSelection {
                    start_idx: to,
                    end_idx: i,
                    ll_line: rc_clone(&self.ll_line),
                };
                out.push((sel, parts));
                j2 += 1;
                proof {
                    assert(pj == vb[j2 - 1].parts);
                    assert(founds_view(out@) =~~= founds_view(pre_out).push(newel));
                    assert(vb.take(j2 as int).drop_last() =~= vb.take(j2 - 1));
                    assert(vb.take(j2 as int).last() == vb[j2 - 1]);
                    assert(hits_found_bwd(self@.line, i, vb.take(j2 as int)) == hits_found_bwd(
                        self@.line,
                        i,
                        vb.take(j2 - 1),
                    ).push(newel));
                    assert(founds_view(out@) =~~= base2 + hits_found_bwd(
                        self@.line,
                        i,
                        vb.take(j2 as int),
                    ));
                }
            }
            i += 1;
            proof {
                assert(vb.take(nb as int) =~= vb);
                assert(founds_view(out@) =~~= find_fb_upto(
                    self@.line,
                    *matcher,
                    self@.start_idx,
                    i as int,
                ));
            }
        }
        out
    }

    /// Probe the position just past the selection's end; each match
    /// extends the selection up to where it reached.  Nothing when the
    /// selection already touches the line's end.
    pub fn match_forwards(&self, matcher: &Matcher) -> (r: Vec<(LLSelection, Vec<OutPart>)>)
        requires
            self.wf(),
        ensures
            founds_view(r@) == match_forwards_spec(self@, *matcher),
            forall|q: int|
                0 <= q < r@.len() ==> (#[trigger] r@[q]).0@.wf() && r@[q].0@.line == self@.line
                    && r@[q].0@.start_idx == self@.start_idx && r@[q].0@.end_idx > self@.end_idx,
    {
        // [ ... ] - Current selection
        //        [ ... ] - Trying to match Attr
        let mut out: Vec<(LLSelection, Vec<OutPart>)> = Vec::new();
        if self.end_idx + 1 == self.ll_line.ll_tokens().len() {
            proof {
                assert(founds_view(out@) =~= match_forwards_spec(self@, *matcher));
            }
            return out;
        }
        let at = self.end_idx + 1;
        let hits = matcher.go(Direction::Forwards, at, &self.ll_line);
        let ghost vh = hits_view(hits@);
        let nh = hits.len();
        let mut j: usize = 0;
        proof {
            assert(founds_view(out@) =~= extend_fwd(self@, vh.take(0)));
        }
        while j < nh
            invariant
                self.wf(),
                nh == hits@.len(),
                j <= nh,
                at == self@.end_idx + 1 < self@.line.tokens.len(),
                vh == hits_view(hits@),
                vh == eval(*matcher, self@.line, Direction::Forwards, at as usize),
                founds_view(out@) == extend_fwd(self@, vh.take(j as int)),
                forall|q: int|
                    0 <= q < out@.len() ==> (#[trigger] out@[q]).0@.wf() && out@[q].0@.line
                        == self@.line && out@[q].0@.start_idx == self@.start_idx
                        && out@[q].0@.end_idx > self@.end_idx,
            decreases nh - j,
        {
            let to = hits[j].1.0;
            proof {
                lemma_eval_in_bounds(*matcher, self@.line, Direction::Forwards, at as usize);
                lemma_eval_directional(*matcher, self@.line, Direction::Forwards, at as usize);
                assert(vh[j as int].to == to);
            }
            let parts = crate::x::copy_parts(&hits[j].0);
            let ghost pre_out = out@;
            let ghost newel = (
                SelectionV {
                    line: self@.line,
                    start_idx: self@.start_idx,
                    end_idx: vh[j as int].to,
                },
                vh[j as int].parts,
            );
            let ghost pj = parts_view(parts@);
            let sel = LLSelection {
                start_idx: self.start_idx,
                end_idx: to,
                ll_line: rc_clone(&self.ll_line),
            };
            out.push((sel, parts));
            j += 1;
            proof {
                assert(pj == vh[j - 1].parts);
                assert(founds_view(out@) =~~= founds_view(pre_out).push(newel));
                assert(vh.take(j as int).drop_last() =~= vh.take(j - 1));
                assert(vh.take(j as int).last() == vh[j - 1]);
                assert(extend_fwd(self@, vh.take(j as int)) == extend_fwd(
                    self@,
                    vh.take(j - 1),
                ).push(newel));
                assert(founds_view(out@) =~~= extend_fwd(self@, vh.take(j as int)));
            }
        }
        proof {
            assert(vh.take(nh as int) =~= vh);
        }
        out
    }

    /// The first result of [`LLSelection::match_forwards`], if any.
    pub fn match_first_forwards(&self, matcher: &Matcher) -> (r: Option<(LLSelection, Vec<OutPart>)>)
        requires
            self.wf(),
        ensures
            match_forwards_spec(self@, *matcher).len() == 0 <==> r is None,
            r matches Some(p) ==> ((p.0@, parts_view(p.1@)) == match_forwards_spec(
                self@,
                *matcher,
            )[0] && p.0@.wf() && p.0@.line == self@.line && p.0@.start_idx == self@.start_idx
                && p.0@.end_idx > self@.end_idx),
    {
        let mut found = self.match_forwards(matcher);
        let ghost fv = founds_view(found@);
        if found.len() > 0 {
            let first = found.remove(0);
            proof {
                assert((first.0@, parts_view(first.1@)) == fv[0]);
            }
            Some(first)
        } else {
            None
        }
    }

    /// Probe the position just before the selection's start; each match
    /// extends the selection back to where it reached.  Nothing when the
    /// selection already touches the line's start.
    pub fn match_backwards(&self, matcher: &Matcher) -> (r: Vec<(LLSelection, Vec<OutPart>)>)
        requires
            self.wf(),
        ensures
            founds_view(r@) == match_backwards_spec(self@, *matcher),
            forall|q: int|
                0 <= q < r@.len() ==> (#[trigger] r@[q]).0@.wf() && r@[q].0@.line == self@.line
                    && r@[q].0@.end_idx == self@.end_idx && r@[q].0@.start_idx < self@.start_idx,
    {
        let mut out: Vec<(LLSelection, Vec<OutPart>)> = Vec::new();
        if self.start_idx == 0 {
            proof {
                assert(founds_view(out@) =~= match_backwards_spec(self@, *matcher));
            }
            return out;
        }
        let at = self.start_idx - 1;
        let hits = matcher.go(Direction::Backwards, at, &self.ll_line);
        let ghost vh = hits_view(hits@);
        let nh = hits.len();
        let mut j: usize = 0;
        proof {
            assert(founds_view(out@) =~= extend_bwd(self@, vh.take(0)));
        }
        while j < nh
            invariant
                self.wf(),
                nh == hits@.len(),
                j <= nh,
                self@.start_idx >= 1,
                at == self@.start_idx - 1,
                vh == hits_view(hits@),
                vh == eval(*matcher, self@.line, Direction::Backwards, at as usize),
                founds_view(out@) == extend_bwd(self@, vh.take(j as int)),
                forall|q: int|
                    0 <= q < out@.len() ==> (#[trigger] out@[q]).0@.wf() && out@[q].0@.line
                        == self@.line && out@[q].0@.end_idx == self@.end_idx
                        && out@[q].0@.start_idx < self@.start_idx,
            decreases nh - j,
        {
            let to = hits[j].1.0;
            proof {
                lemma_eval_in_bounds(*matcher, self@.line, Direction::Backwards, at as usize);
                lemma_eval_directional(*matcher, self@.line, Direction::Backwards, at as usize);
                assert(vh[j as int].to == to);
            }
            let parts = crate::x::copy_parts(&hits[j].0);
            let ghost pre_out = out@;
            let ghost newel = (
                SelectionV {
                    line: self@.line,
                    start_idx: vh[j as int].to,
                    end_idx: self@.end_idx,
                },
                vh[j as int].parts,
            );
            let ghost pj = parts_view(parts@);
            let sel = LLSelection {
                start_idx: to,
                end_idx: self.end_idx,
                ll_line: rc_clone(&self.ll_line),
            };
            out.push((sel, parts));
            j += 1;
            proof {
                assert(pj == vh[j - 1].parts);
                assert(founds_view(out@) =~~= founds_view(pre_out).push(newel));
                assert(vh.take(j as int).drop_last() =~= vh.take(j - 1));
                assert(vh.take(j as int).last() == vh[j - 1]);
                assert(extend_bwd(self@, vh.take(j as int)) == extend_bwd(
                    self@,
                    vh.take(j - 1),
                ).push(newel));
                assert(founds_view(out@) =~~= extend_bwd(self@, vh.take(j as int)));
            }
        }
        proof {
            assert(vh.take(nh as int) =~= vh);
        }
        out
    }

    /// The first result of [`LLSelection::match_backwards`], if any.
    pub fn match_first_backwards(&self, matcher: &Matcher) -> (r: Option<
        (LLSelection, Vec<OutPart>),
    >)
        requires
            self.wf(),
        ensures
            match_backwards_spec(self@, *matcher).len() == 0 <==> r is None,
            r matches Some(p) ==> ((p.0@, parts_view(p.1@)) == match_backwards_spec(
                self@,
                *matcher,
            )[0] && p.0@.wf() && p.0@.line == self@.line && p.0@.end_idx == self@.end_idx
                && p.0@.start_idx < self@.start_idx),
    {
        let mut found = self.match_backwards(matcher);
        let ghost fv = founds_view(found@);
        if found.len() > 0 {
            let first = found.remove(0);
            proof {
                assert((first.0@, parts_view(first.1@)) == fv[0]);
            }
            Some(first)
        } else {
            None
        }
    }

    /// The rest of the line strictly after this selection, or nothing
    /// when the selection already touches the line's end.
    pub fn after(&self) -> (r: Option<LLSelection>)
        requires
            self.wf(),
        ensures
            self@.end_idx + 1 < self@.line.tokens.len() ==> (r matches Some(s) && s@ == (
            SelectionV {
                line: self@.line,
                start_idx: (self@.end_idx + 1) as usize,
                end_idx: (self@.line.tokens.len() - 1) as usize,
            }) && s.wf()),
            self@.end_idx + 1 == self@.line.tokens.len() ==> r is None,
    {
        let ll_line_end = self.ll_line.ll_tokens().len() - 1;
        if self.end_idx < ll_line_end {
            Some(
                LLSelection {
                    ll_line: rc_clone(&self.ll_line),
                    start_idx: self.end_idx + 1,
                    end_idx: ll_line_end,
                },
            )
        } else {
            None
        }
    }

    /// The sub-selection clamped to `[start_idx, end_idx]` intersected
    /// with this selection's own bounds, or nothing when that is empty.
    fn selection_from(&self, start_idx: usize, end_idx: usize) -> (r: Option<LLSelection>)
        requires
            self.wf(),
        ensures
            opt_sel_view(r) == sel_from(self@, start_idx as int, end_idx as int),
            r matches Some(s) ==> s.wf(),
    {
        let s2 = if start_idx > self.start_idx {
            start_idx
        } else {
            self.start_idx
        };
        let e2 = if end_idx < self.end_idx {
            end_idx
        } else {
            self.end_idx
        };
        if s2 <= e2 {
            Some(LLSelection { ll_line: rc_clone(&self.ll_line), end_idx: e2, start_idx: s2 })
        } else {
            None
        }
    }

    /// The (at most two) pieces of this selection lying strictly before
    /// and strictly after `other_selection`, which must be cut from the
    /// same line.
    pub fn split_with(&self, other_selection: &LLSelection) -> (r: (
        Option<LLSelection>,
        Option<LLSelection>,
    ))
        requires
            self.wf(),
            other_selection.wf(),
            self@.line == other_selection@.line,
        ensures
            opt_sel_view(r.0) == (if other_selection@.start_idx > 0 {
                sel_from(self@, self@.start_idx as int, other_selection@.start_idx - 1)
            } else {
                None
            }),
            opt_sel_view(r.1) == sel_from(
                self@,
                other_selection@.end_idx + 1,
                self@.end_idx as int,
            ),
            r.0 matches Some(s) ==> s.wf(),
            r.1 matches Some(s) ==> s.wf(),
    {
        // 1   [          ]
        // 2                   [      ]
        //     [          ]
        //               ]      [
        // 1   [          ]
        // 2           [      ]
        //     [      ]
        let before = if other_selection.start_idx > 0 {
            // underflow protection
            self.selection_from(self.start_idx, other_selection.start_idx - 1)
        } else {
            None
        };
        let after = self.selection_from(other_selection.end_idx + 1, self.end_idx);
        (before, after)
    }


    /// Partition the selection into the maximal sub-selections strictly
    /// between consecutive matches of `matcher`, discarding the matched
    /// spans; the whole selection when nothing matches.
    pub fn split_by(&self, matcher: &Matcher) -> (r: Vec<LLSelection>)
        requires
            self.wf(),
        ensures
            sels_view(r@) == split_by_spec(self@, *matcher),
            forall|q: int|
                0 <= q < r@.len() ==> (#[trigger] r@[q])@.wf() && r@[q]@.line == self@.line,
    {
        let found = self.find_by(matcher);
        let ghost fv = founds_view(found@);
        let ghost rg = found_ranges(fv);
        let n = found.len();
        let mut out: Vec<LLSelection> = Vec::new();
        if n == 0 {
            out.push(self.clone());
            proof {
                assert(sels_view(out@) =~~= split_by_spec(self@, *matcher));
            }
            return out;
        }
        let ghost headv = if rg[0].0 > 0 {
            opt_to_seq(sel_from(self@, self@.start_idx as int, rg[0].0 - 1))
        } else {
            Seq::<SelectionV>::empty()
        };
        let m0s = found[0].0.start_idx;
        proof {
            assert(fv[0].0 == found@[0].0@);
            assert(rg[0] == (found@[0].0@.start_idx, found@[0].0@.end_idx));
        }
        if m0s > 0 {
            match self.selection_from(self.start_idx, m0s - 1) {
                Some(piece) => {
                    out.push(piece);
                },
                None => {},
            }
        }
        proof {
            assert(sels_view(out@) =~~= headv + gap_pieces(self@, rg, 0));
        }
        let mut w: usize = 1;
        while w < n
            invariant
                self.wf(),
                n == found@.len(),
                1 <= w <= n,
                fv == founds_view(found@),
                rg == found_ranges(fv),
                headv == (if rg[0].0 > 0 {
                    opt_to_seq(sel_from(self@, self@.start_idx as int, rg[0].0 - 1))
                } else {
                    Seq::<SelectionV>::empty()
                }),
                forall|q: int|
                    0 <= q < found@.len() ==> (#[trigger] found@[q]).0@.wf() && found@[q].0@.line
                        == self@.line,
                sels_view(out@) == headv + gap_pieces(self@, rg, w - 1),
                forall|q: int|
                    0 <= q < out@.len() ==> (#[trigger] out@[q])@.wf() && out@[q]@.line
                        == self@.line,
            decreases n - w,
        {
            let prev_end = found[w - 1].0.end_idx;
            let cur_start = found[w].0.start_idx;
            proof {
                assert(fv[w as int].0 == found@[w as int].0@);
                assert(fv[w - 1].0 == found@[w - 1].0@);
                assert(rg[w as int] == (cur_start, found@[w as int].0@.end_idx));
                assert(rg[w - 1] == (found@[w - 1].0@.start_idx, prev_end));
                assert(found@[w - 1].0@.wf());
            }
            let ghost pre_sels = sels_view(out@);
            let ghost piece_w = (if rg[w as int].0 > 0 {
                opt_to_seq(sel_from(self@, rg[w - 1].1 + 1, rg[w as int].0 - 1))
            } else {
                Seq::<SelectionV>::empty()
            });
            if cur_start > 0 {
                match self.selection_from(prev_end + 1, cur_start - 1) {
                    Some(piece) => {
                        let ghost pv = piece@;
                        out.push(piece);
                        proof {
                            assert(piece_w =~= seq![pv]);
                            assert(sels_view(out@) =~~= pre_sels.push(pv));
                        }
                    },
                    None => {
                        proof {
                            assert(piece_w =~= Seq::<SelectionV>::empty());
                        }
                    },
                }
            } else {
                proof {
                    assert(piece_w =~= Seq::<SelectionV>::empty());
                }
            }
            w += 1;
            proof {
                assert(gap_pieces(self@, rg, w - 1) == gap_pieces(self@, rg, w - 2) + piece_w);
                assert(sels_view(out@) =~~= headv + gap_pieces(self@, rg, w - 1));
            }
        }
        let last_end = found[n - 1].0.end_idx;
        proof {
            assert(fv[n - 1].0 == found@[n - 1].0@);
            assert(rg[n - 1] == (found@[n - 1].0@.start_idx, last_end));
            assert(rg.last() == rg[n - 1]);
            assert(found@[n - 1].0@.wf());
        }
        match self.selection_from(last_end + 1, self.end_idx) {
            Some(piece) => {
                out.push(piece);
            },
            None => {},
        }
        proof {
            assert(sels_view(out@) =~~= split_by_spec(self@, *matcher));
        }
        out
    }


    /// Shrink the selection by removing a maximal matching prefix and
    /// suffix; nothing when trimming would leave an empty span.
    pub fn trim(&self, matcher: &Matcher) -> (r: Option<LLSelection>)
        requires
            self.wf(),
        ensures
            opt_sel_view(r) == trim_spec(self@, *matcher),
            r matches Some(sel) ==> sel.wf(),
    {
        let mut s: usize = self.start_idx;
        let e: usize = self.end_idx;
        loop
            invariant_except_break
                self.wf(),
                self@.start_idx <= s <= e,
                e == self@.end_idx,
                trim_front(self@.line, *matcher, self@.start_idx, e) == trim_front(
                    self@.line,
                    *matcher,
                    s,
                    e,
                ),
            ensures
                self.wf(),
                e == self@.end_idx,
                s <= e + 1,
                trim_front(self@.line, *matcher, self@.start_idx, e) == s,
            decreases e - s,
        {
            let hits = matcher.go(Direction::Forwards, s, &self.ll_line);
            if hits.len() == 0 {
                break ;
            }
            let t = hits[0].1.0;
            proof {
                assert(hits_view(hits@)[0].to == t);
                lemma_eval_directional(*matcher, self@.line, Direction::Forwards, s);
                assert(t >= s);
            }
            if t >= e {
                s = e + 1;
                proof {
                    assert(trim_front(self@.line, *matcher, self@.start_idx, e) == e + 1);
                }
                break ;
            }
            s = t + 1;
        }
        if s > e {
            proof {
                assert(trim_spec(self@, *matcher) is None);
            }
            return None;
        }
        let ghost s_final = s;
        let mut e2: usize = e;
        loop
            invariant_except_break
                self.wf(),
                s_final == s,
                s <= e2 <= e,
                e == self@.end_idx,
                s == trim_front(self@.line, *matcher, self@.start_idx, e),
                trim_back(self@.line, *matcher, s, e) == trim_back(self@.line, *matcher, s, e2),
            ensures
                self.wf(),
                s_final == s,
                e == self@.end_idx,
                s == trim_front(self@.line, *matcher, self@.start_idx, e),
                s - 1 <= e2 <= e,
                trim_back(self@.line, *matcher, s, e) == e2,
            decreases e2 - s,
        {
            let hits = matcher.go(Direction::Backwards, e2, &self.ll_line);
            if hits.len() == 0 {
                break ;
            }
            let t = hits[0].1.0;
            proof {
                assert(hits_view(hits@)[0].to == t);
                lemma_eval_directional(*matcher, self@.line, Direction::Backwards, e2);
                assert(t <= e2);
            }
            if t <= s {
                proof {
                    assert(trim_back(self@.line, *matcher, s, e) == s - 1);
                }
                if s == 0 {
                    proof {
                        assert(trim_spec(self@, *matcher) is None);
                    }
                    return None;
                }
                e2 = s - 1;
                break ;
            }
            e2 = t - 1;
        }
        if e2 < s {
            proof {
                assert(trim_spec(self@, *matcher) is None);
            }
            return None;
        }
        let r = LLSelection { ll_line: rc_clone(&self.ll_line), start_idx: s, end_idx: e2 };
        proof {
            assert(opt_sel_view(Some(r)) == trim_spec(self@, *matcher));
        }
        Some(r)
    }

    /// Turn this selection's bounds and `value` into an assignment to be
    /// returned from an annotation pass.
    pub fn finish_with_attr(&self, value: AttrData) -> (r: LLCursorAssignment)
        ensures
            r@ == (AssignV {
                start_idx: self@.start_idx,
                end_idx: self@.end_idx,
                value: value@,
            }),
    {
        LLCursorAssignment::from_parts(self.start_idx, self.end_idx, value)
    }
}

} // verus!
