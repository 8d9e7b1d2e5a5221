//! The position-matcher algebra.
//!
//! A matcher is evaluated at a boundary token index, in a direction, and
//! yields zero or more matches; each match carries the parts it captured
//! and the far token index it reached.  The same matcher runs forwards
//! (probing ranges that start at the boundary) or backwards (probing
//! ranges that end there).

use vstd::prelude::*;

use crate::attrs::{kind_of, AttrData, AttrDataV, AttrKind, TextTag};
use crate::ll_line::{LLLine, LLLineV, LToken, LTokenV};
use crate::type_id_to_many::LRange;

verus! {

/// Direction of a probe: forwards probes ranges starting at the boundary
/// and advances to the right; backwards probes ranges ending at the
/// boundary and advances to the left.
#[derive(Clone, Copy, Debug, PartialEq, Eq, Structural)]
pub enum Direction {
    Forwards,
    Backwards,
}

/// The far token index a match reached.
#[derive(Clone, Copy, Debug, PartialEq, Eq, Structural)]
pub struct ToIdx(pub usize);

/// One captured piece of a match: a token's text, an attribute value, the
/// winning branch of a priority choice, or the bare witness of an
/// equality test.
#[derive(Debug, PartialEq)]
pub enum OutPart {
    Text(String),
    Val(AttrData),
    Branch(u64),
    Unit,
}

/// Mathematical model of an [`OutPart`].
#[verifier::ext_equal]
pub enum OutPartV {
    Text(Seq<char>),
    Val(AttrDataV),
    Branch(u64),
    Unit,
}

impl View for OutPart {
    type V = OutPartV;

    open spec fn view(&self) -> OutPartV {
        match self {
            OutPart::Text(s) => OutPartV::Text(s@),
            OutPart::Val(d) => OutPartV::Val(d@),
            OutPart::Branch(b) => OutPartV::Branch(*b),
            OutPart::Unit => OutPartV::Unit,
        }
    }
}

impl Clone for OutPart {
    fn clone(&self) -> (r: OutPart)
        ensures
            r@ == self@,
    {
        match self {
            OutPart::Text(s) => OutPart::Text(s.clone()),
            OutPart::Val(d) => OutPart::Val(d.clone()),
            OutPart::Branch(b) => OutPart::Branch(*b),
            OutPart::Unit => OutPart::Unit,
        }
    }
}

/// One match: the captured parts and the far index reached.
#[verifier::ext_equal]
pub struct HitV {
    pub parts: Seq<OutPartV>,
    pub to: usize,
}

/// The lift of a part list to its model.
pub open spec fn parts_view(v: Seq<OutPart>) -> Seq<OutPartV> {
    Seq::new(v.len(), |i: int| v[i]@)
}

/// The lift of a hit list to its model.
pub open spec fn hits_view(v: Seq<(Vec<OutPart>, ToIdx)>) -> Seq<HitV> {
    Seq::new(v.len(), |i: int| HitV { parts: parts_view(v[i].0@), to: v[i].1.0 })
}

/// A composable query: a primitive probe, or a conjunction, priority
/// choice, or sequence of sub-matchers.
pub enum Matcher {
    /// the token at the boundary, when it is a text token; captures its text
    TokenText,
    /// every value of this kind on a range at the boundary
    Attr(AttrKind),
    /// every value at the boundary equal to the given one
    AttrEq(AttrData),
    /// a single-token value at the boundary equal to one of the given set
    TokenHasAny(Vec<AttrData>),
    /// both match and reach the same index
    All2(Box<Matcher>, Box<Matcher>),
    /// all three match and reach the same index
    All3(Box<Matcher>, Box<Matcher>, Box<Matcher>),
    /// the first of the two that matches at all wins outright
    AnyOf2(Box<Matcher>, Box<Matcher>),
    /// the first of the three that matches at all wins outright
    AnyOf3(Box<Matcher>, Box<Matcher>, Box<Matcher>),
    /// the second matches just past where the first reached
    Seq2(Box<Matcher>, Box<Matcher>),
    /// each next one matches just past where the previous reached
    Seq3(Box<Matcher>, Box<Matcher>, Box<Matcher>),
}

/// The index a range's far end reaches in the given direction.
pub open spec fn reach_of(dir: Direction, r: LRange) -> usize {
    match dir {
        Direction::Forwards => r.1,
        Direction::Backwards => r.0,
    }
}

/// The boundary just past `idx` in the given direction, or nothing at the
/// line's edge.
pub open spec fn dir_after(dir: Direction, idx: usize, n: nat) -> Option<usize> {
    match dir {
        Direction::Forwards => if idx + 1 < n {
            Some((idx + 1) as usize)
        } else {
            None
        },
        Direction::Backwards => if idx >= 1 {
            Some((idx - 1) as usize)
        } else {
            None
        },
    }
}

/// The ranges the direction probes at boundary `at`: those starting there
/// (forwards) or ending there (backwards).
pub open spec fn probe_ranges(line: LLLineV, dir: Direction, at: int, k: AttrKind) -> Seq<LRange> {
    match dir {
        Direction::Forwards => line.attrs.starts_ranges(at, k),
        Direction::Backwards => line.attrs.ends_ranges(at, k),
    }
}

/// One hit per value, each carrying the value, all reaching `to`.
pub open spec fn val_hits(vals: Seq<AttrDataV>, to: usize) -> Seq<HitV>
    decreases vals.len(),
{
    if vals.len() == 0 {
        Seq::empty()
    } else {
        val_hits(vals.drop_last(), to).push(
            HitV { parts: seq![OutPartV::Val(vals.last())], to },
        )
    }
}

/// One hit per value equal to `eq`, each a bare witness, all reaching `to`.
pub open spec fn val_eq_hits(vals: Seq<AttrDataV>, eq: AttrDataV, to: usize) -> Seq<HitV>
    decreases vals.len(),
{
    if vals.len() == 0 {
        Seq::empty()
    } else {
        let rest = val_eq_hits(vals.drop_last(), eq, to);
        if vals.last() == eq {
            rest.push(HitV { parts: seq![OutPartV::Unit], to })
        } else {
            rest
        }
    }
}

/// Whether `v` equals one of the set's values.
pub open spec fn set_contains_v(set: Seq<AttrData>, v: AttrDataV) -> bool {
    exists|q: int| 0 <= q < set.len() && set[q]@ == v
}

/// One hit per value in the set, each carrying the value, all reaching
/// `to`.
pub open spec fn val_any_hits(vals: Seq<AttrDataV>, set: Seq<AttrData>, to: usize) -> Seq<HitV>
    decreases vals.len(),
{
    if vals.len() == 0 {
        Seq::empty()
    } else {
        let rest = val_any_hits(vals.drop_last(), set, to);
        if set_contains_v(set, vals.last()) {
            rest.push(HitV { parts: seq![OutPartV::Val(vals.last())], to })
        } else {
            rest
        }
    }
}

/// The hits of an attribute-kind probe: for each probed range, in index
/// order, one hit per stored value, in insertion order.
pub open spec fn attr_hits(
    line: LLLineV,
    dir: Direction,
    k: AttrKind,
    ranges: Seq<LRange>,
) -> Seq<HitV>
    decreases ranges.len(),
{
    if ranges.len() == 0 {
        Seq::empty()
    } else {
        attr_hits(line, dir, k, ranges.drop_last()) + val_hits(
            line.attrs.values_at(ranges.last(), k),
            reach_of(dir, ranges.last()),
        )
    }
}

/// The hits of an attribute-equality probe.
pub open spec fn attr_eq_hits(
    line: LLLineV,
    dir: Direction,
    eq: AttrDataV,
    ranges: Seq<LRange>,
) -> Seq<HitV>
    decreases ranges.len(),
{
    if ranges.len() == 0 {
        Seq::empty()
    } else {
        attr_eq_hits(line, dir, eq, ranges.drop_last()) + val_eq_hits(
            line.attrs.values_at(ranges.last(), kind_of(eq)),
            eq,
            reach_of(dir, ranges.last()),
        )
    }
}

/// Every pairing of `hit` with a hit of `rb` that reached the same index:
/// the parts concatenated, in `rb`'s order.
pub open spec fn pair_hits(hit: HitV, rb: Seq<HitV>) -> Seq<HitV>
    decreases rb.len(),
{
    if rb.len() == 0 {
        Seq::empty()
    } else {
        let rest = pair_hits(hit, rb.drop_last());
        if rb.last().to == hit.to {
            rest.push(HitV { parts: hit.parts + rb.last().parts, to: hit.to })
        } else {
            rest
        }
    }
}

/// The conjunction of two hit lists: pairs agreeing on the reached index,
/// in left-major order.
pub open spec fn all_hits(ra: Seq<HitV>, rb: Seq<HitV>) -> Seq<HitV>
    decreases ra.len(),
{
    if ra.len() == 0 {
        Seq::empty()
    } else {
        all_hits(ra.drop_last(), rb) + pair_hits(ra.last(), rb)
    }
}

/// The hits with the winning branch number prepended to each.
pub open spec fn tag_hits(rs: Seq<HitV>, branch: u64) -> Seq<HitV>
    decreases rs.len(),
{
    if rs.len() == 0 {
        Seq::empty()
    } else {
        tag_hits(rs.drop_last(), branch).push(
            HitV {
                parts: seq![OutPartV::Branch(branch)] + rs.last().parts,
                to: rs.last().to,
            },
        )
    }
}

/// The hits with `parts` prepended to each.
pub open spec fn prefix_hits(parts: Seq<OutPartV>, rs: Seq<HitV>) -> Seq<HitV>
    decreases rs.len(),
{
    if rs.len() == 0 {
        Seq::empty()
    } else {
        prefix_hits(parts, rs.drop_last()).push(
            HitV { parts: parts + rs.last().parts, to: rs.last().to },
        )
    }
}

/// What a matcher yields at boundary `at` in direction `dir`.
///
/// This is the semantics the executable evaluator is proved against:
/// every selection operation's contract reduces to it.
pub open spec fn eval(m: Matcher, line: LLLineV, dir: Direction, at: usize) -> Seq<HitV>
    decreases m, 0nat,
{
    let n = line.tokens.len();
    match m {
        Matcher::TokenText => {
            if at < n {
                match line.tokens[at as int].token {
                    LTokenV::Text(s, _) => seq![HitV { parts: seq![OutPartV::Text(s)], to: at }],
                    LTokenV::Value => Seq::empty(),
                }
            } else {
                Seq::empty()
            }
        },
        Matcher::Attr(k) => attr_hits(line, dir, k, probe_ranges(line, dir, at as int, k)),
        Matcher::AttrEq(eq) => attr_eq_hits(
            line,
            dir,
            eq@,
            probe_ranges(line, dir, at as int, kind_of(eq@)),
        ),
        Matcher::TokenHasAny(set) => {
            if set@.len() == 0 {
                Seq::empty()
            } else {
                val_any_hits(
                    line.attrs.values_at((at, at), kind_of(set@[0]@)),
                    set@,
                    at,
                )
            }
        },
        Matcher::All2(a, b) => all_hits(eval(*a, line, dir, at), eval(*b, line, dir, at)),
        Matcher::All3(a, b, c) => all_hits(
            eval(*a, line, dir, at),
            all_hits(eval(*b, line, dir, at), eval(*c, line, dir, at)),
        ),
        Matcher::AnyOf2(a, b) => {
            let ra = eval(*a, line, dir, at);
            if ra.len() > 0 {
                tag_hits(ra, 0)
            } else {
                tag_hits(eval(*b, line, dir, at), 1)
            }
        },
        Matcher::AnyOf3(a, b, c) => {
            let ra = eval(*a, line, dir, at);
            if ra.len() > 0 {
                tag_hits(ra, 0)
            } else {
                let rb = eval(*b, line, dir, at);
                if rb.len() > 0 {
                    tag_hits(rb, 1)
                } else {
                    tag_hits(eval(*c, line, dir, at), 2)
                }
            }
        },
        Matcher::Seq2(a, b) => seq_chain(eval(*a, line, dir, at), *b, line, dir),
        Matcher::Seq3(a, b, c) => seq_chain(
            seq_chain(eval(*a, line, dir, at), *b, line, dir),
            *c,
            line,
            dir,
        ),
    }
}

/// For each hit so far, the continuations: `next` evaluated just past the
/// reached index, its parts appended; nothing when the line's edge is
/// reached.
pub open spec fn seq_chain(ra: Seq<HitV>, next: Matcher, line: LLLineV, dir: Direction) -> Seq<
    HitV,
>
    decreases next, ra.len() + 1nat,
{
    if ra.len() == 0 {
        Seq::empty()
    } else {
        seq_chain(ra.drop_last(), next, line, dir) + (match dir_after(
            dir,
            ra.last().to,
            line.tokens.len(),
        ) {
            Some(j) => prefix_hits(ra.last().parts, eval(next, line, dir, j)),
            None => Seq::empty(),
        })
    }
}



/// Every hit a matcher yields at an in-line boundary reaches an in-line
/// index.
pub proof fn lemma_eval_in_bounds(m: Matcher, line: LLLineV, dir: Direction, at: usize)
    requires
        line.wf(),
        at < line.tokens.len(),
    ensures
        forall|q: int|
            0 <= q < eval(m, line, dir, at).len() ==> (#[trigger] eval(m, line, dir, at)[q]).to
                < line.tokens.len(),
    decreases m, 1nat,
{
    let n = line.tokens.len();
    let rs = eval(m, line, dir, at);
    match m {
        Matcher::TokenText => {
            assert(forall|q: int| 0 <= q < rs.len() ==> (#[trigger] rs[q]).to < n);
        },
        Matcher::Attr(k) => {
            lemma_probe_hits_in_bounds(line, dir, at, k);
            lemma_attr_hits_in_bounds(line, dir, k, probe_ranges(line, dir, at as int, k));
            assert(forall|q: int| 0 <= q < rs.len() ==> (#[trigger] rs[q]).to < n);
        },
        Matcher::AttrEq(eq) => {
            lemma_probe_hits_in_bounds(line, dir, at, kind_of(eq@));
            lemma_attr_eq_hits_in_bounds(
                line,
                dir,
                eq@,
                probe_ranges(line, dir, at as int, kind_of(eq@)),
            );
        },
        Matcher::TokenHasAny(set) => {
            if set@.len() > 0 {
                lemma_val_any_hits_to(
                    line.attrs.values_at((at, at), kind_of(set@[0]@)),
                    set@,
                    at,
                );
            }
            assert(forall|q: int| 0 <= q < rs.len() ==> (#[trigger] rs[q]).to < n);
        },
        Matcher::All2(a, b) => {
            lemma_eval_in_bounds(*a, line, dir, at);
            lemma_all_hits_in_bounds(eval(*a, line, dir, at), eval(*b, line, dir, at), n as int);
            assert(forall|q: int| 0 <= q < rs.len() ==> (#[trigger] rs[q]).to < n);
        },
        Matcher::All3(a, b, c) => {
            lemma_eval_in_bounds(*a, line, dir, at);
            lemma_all_hits_in_bounds(
                eval(*a, line, dir, at),
                all_hits(eval(*b, line, dir, at), eval(*c, line, dir, at)),
                n as int,
            );
            assert(forall|q: int| 0 <= q < rs.len() ==> (#[trigger] rs[q]).to < n);
        },
        Matcher::AnyOf2(a, b) => {
            lemma_eval_in_bounds(*a, line, dir, at);
            lemma_eval_in_bounds(*b, line, dir, at);
            lemma_tag_hits_in_bounds(eval(*a, line, dir, at), 0, n as int);
            lemma_tag_hits_in_bounds(eval(*b, line, dir, at), 1, n as int);
            assert(forall|q: int| 0 <= q < rs.len() ==> (#[trigger] rs[q]).to < n);
        },
        Matcher::AnyOf3(a, b, c) => {
            lemma_eval_in_bounds(*a, line, dir, at);
            lemma_eval_in_bounds(*b, line, dir, at);
            lemma_eval_in_bounds(*c, line, dir, at);
            lemma_tag_hits_in_bounds(eval(*a, line, dir, at), 0, n as int);
            lemma_tag_hits_in_bounds(eval(*b, line, dir, at), 1, n as int);
            lemma_tag_hits_in_bounds(eval(*c, line, dir, at), 2, n as int);
            assert(forall|q: int| 0 <= q < rs.len() ==> (#[trigger] rs[q]).to < n);
        },
        Matcher::Seq2(a, b) => {
            lemma_eval_in_bounds(*a, line, dir, at);
            assert(rs == seq_chain(eval(*a, line, dir, at), *b, line, dir));
            lemma_seq_chain_in_bounds(eval(*a, line, dir, at), *b, line, dir);
            assert(forall|q: int| 0 <= q < rs.len() ==> (#[trigger] rs[q]).to < n);
        },
        Matcher::Seq3(a, b, c) => {
            lemma_eval_in_bounds(*a, line, dir, at);
            lemma_seq_chain_in_bounds(eval(*a, line, dir, at), *b, line, dir);
            lemma_seq_chain_in_bounds(
                seq_chain(eval(*a, line, dir, at), *b, line, dir),
                *c,
                line,
                dir,
            );
            assert(rs == seq_chain(
                seq_chain(eval(*a, line, dir, at), *b, line, dir),
                *c,
                line,
                dir,
            ));
            assert(forall|q: int| 0 <= q < rs.len() ==> (#[trigger] rs[q]).to < n);
        },
    }
}

/// Hits chained through `next` reach in-line indices.
pub proof fn lemma_seq_chain_in_bounds(ra: Seq<HitV>, next: Matcher, line: LLLineV, dir: Direction)
    requires
        line.wf(),
        forall|q: int| 0 <= q < ra.len() ==> (#[trigger] ra[q]).to < line.tokens.len(),
    ensures
        forall|q: int|
            0 <= q < seq_chain(ra, next, line, dir).len() ==> (#[trigger] seq_chain(
                ra,
                next,
                line,
                dir,
            )[q]).to < line.tokens.len(),
    decreases next, ra.len() + 2nat,
{
    if ra.len() > 0 {
        lemma_seq_chain_in_bounds(ra.drop_last(), next, line, dir);
        let f_all = seq_chain(ra, next, line, dir);
        let f_rest = seq_chain(ra.drop_last(), next, line, dir);
        match dir_after(dir, ra.last().to, line.tokens.len()) {
            Some(j) => {
                lemma_eval_in_bounds(next, line, dir, j);
                lemma_prefix_hits_in_bounds(
                    ra.last().parts,
                    eval(next, line, dir, j),
                    line.tokens.len() as int,
                );
                let g = prefix_hits(ra.last().parts, eval(next, line, dir, j));
                assert forall|q: int| 0 <= q < f_all.len() implies (#[trigger] f_all[q]).to
                    < line.tokens.len() by {
                    if q < f_rest.len() {
                        assert(f_all[q] == f_rest[q]);
                    } else {
                        assert(f_all[q] == g[q - f_rest.len()]);
                    }
                }
            },
            None => {
                assert(f_all =~= f_rest);
            },
        }
    }
}

/// The ranges a probe lists lie within the line, on both of their ends.
pub proof fn lemma_probe_hits_in_bounds(line: LLLineV, dir: Direction, at: usize, k: AttrKind)
    requires
        line.wf(),
        at < line.tokens.len(),
    ensures
        forall|q: int|
            0 <= q < probe_ranges(line, dir, at as int, k).len() ==> ((#[trigger] probe_ranges(
                line,
                dir,
                at as int,
                k,
            )[q]).0 <= probe_ranges(line, dir, at as int, k)[q].1 < line.tokens.len()),
{
    let n = line.tokens.len() as int;
    let rgs = probe_ranges(line, dir, at as int, k);
    assert forall|q: int| 0 <= q < rgs.len() implies ((#[trigger] rgs[q]).0 <= rgs[q].1 < n) by {
        let r = rgs[q];
        match dir {
            Direction::Forwards => {
                assert(line.attrs.starts_ranges(at as int, k).contains(r));
                assert(line.attrs.values_at(r, k).len() > 0);
                assert(line.attrs.kind_ranges(k).contains(r));
            },
            Direction::Backwards => {
                assert(line.attrs.ends_ranges(at as int, k).contains(r));
                assert(line.attrs.values_at(r, k).len() > 0);
                assert(line.attrs.kind_ranges(k).contains(r));
            },
        }
    }
}

/// Attribute hits over in-line ranges reach in-line indices.
pub proof fn lemma_attr_hits_in_bounds(
    line: LLLineV,
    dir: Direction,
    k: AttrKind,
    ranges: Seq<LRange>,
)
    requires
        forall|q: int|
            0 <= q < ranges.len() ==> ((#[trigger] ranges[q]).0 <= ranges[q].1
                < line.tokens.len()),
    ensures
        forall|q: int|
            0 <= q < attr_hits(line, dir, k, ranges).len() ==> (#[trigger] attr_hits(
                line,
                dir,
                k,
                ranges,
            )[q]).to < line.tokens.len(),
    decreases ranges.len(),
{
    if ranges.len() > 0 {
        lemma_attr_hits_in_bounds(line, dir, k, ranges.drop_last());
        lemma_val_hits_to(
            line.attrs.values_at(ranges.last(), k),
            reach_of(dir, ranges.last()),
        );
        let f_all = attr_hits(line, dir, k, ranges);
        let f_rest = attr_hits(line, dir, k, ranges.drop_last());
        let g = val_hits(line.attrs.values_at(ranges.last(), k), reach_of(dir, ranges.last()));
        assert(reach_of(dir, ranges.last()) < line.tokens.len());
        assert forall|q: int| 0 <= q < f_all.len() implies (#[trigger] f_all[q]).to
            < line.tokens.len() by {
            if q < f_rest.len() {
                assert(f_all[q] == f_rest[q]);
            } else {
                assert(f_all[q] == g[q - f_rest.len()]);
            }
        }
    }
}

/// Equality hits over in-line ranges reach in-line indices.
pub proof fn lemma_attr_eq_hits_in_bounds(
    line: LLLineV,
    dir: Direction,
    eq: AttrDataV,
    ranges: Seq<LRange>,
)
    requires
        forall|q: int|
            0 <= q < ranges.len() ==> ((#[trigger] ranges[q]).0 <= ranges[q].1
                < line.tokens.len()),
    ensures
        forall|q: int|
            0 <= q < attr_eq_hits(line, dir, eq, ranges).len() ==> (#[trigger] attr_eq_hits(
                line,
                dir,
                eq,
                ranges,
            )[q]).to < line.tokens.len(),
    decreases ranges.len(),
{
    if ranges.len() > 0 {
        lemma_attr_eq_hits_in_bounds(line, dir, eq, ranges.drop_last());
        lemma_val_eq_hits_to(
            line.attrs.values_at(ranges.last(), kind_of(eq)),
            eq,
            reach_of(dir, ranges.last()),
        );
        let f_all = attr_eq_hits(line, dir, eq, ranges);
        let f_rest = attr_eq_hits(line, dir, eq, ranges.drop_last());
        let g = val_eq_hits(
            line.attrs.values_at(ranges.last(), kind_of(eq)),
            eq,
            reach_of(dir, ranges.last()),
        );
        assert(reach_of(dir, ranges.last()) < line.tokens.len());
        assert forall|q: int| 0 <= q < f_all.len() implies (#[trigger] f_all[q]).to
            < line.tokens.len() by {
            if q < f_rest.len() {
                assert(f_all[q] == f_rest[q]);
            } else {
                assert(f_all[q] == g[q - f_rest.len()]);
            }
        }
    }
}

/// Every value hit reaches `to`.
pub proof fn lemma_val_hits_to(vals: Seq<AttrDataV>, to: usize)
    ensures
        forall|q: int|
            0 <= q < val_hits(vals, to).len() ==> (#[trigger] val_hits(vals, to)[q]).to == to,
    decreases vals.len(),
{
    if vals.len() > 0 {
        lemma_val_hits_to(vals.drop_last(), to);
        let f_all = val_hits(vals, to);
        let f_rest = val_hits(vals.drop_last(), to);
        assert forall|q: int| 0 <= q < f_all.len() implies (#[trigger] f_all[q]).to == to by {
            if q < f_rest.len() {
                assert(f_all[q] == f_rest[q]);
            }
        }
    }
}

/// Every equality hit reaches `to`.
pub proof fn lemma_val_eq_hits_to(vals: Seq<AttrDataV>, eq: AttrDataV, to: usize)
    ensures
        forall|q: int|
            0 <= q < val_eq_hits(vals, eq, to).len() ==> (#[trigger] val_eq_hits(
                vals,
                eq,
                to,
            )[q]).to == to,
    decreases vals.len(),
{
    if vals.len() > 0 {
        lemma_val_eq_hits_to(vals.drop_last(), eq, to);
        let f_all = val_eq_hits(vals, eq, to);
        let f_rest = val_eq_hits(vals.drop_last(), eq, to);
        assert forall|q: int| 0 <= q < f_all.len() implies (#[trigger] f_all[q]).to == to by {
            if q < f_rest.len() {
                assert(f_all[q] == f_rest[q]);
            }
        }
    }
}

/// Every membership hit reaches `to`.
pub proof fn lemma_val_any_hits_to(vals: Seq<AttrDataV>, set: Seq<AttrData>, to: usize)
    ensures
        forall|q: int|
            0 <= q < val_any_hits(vals, set, to).len() ==> (#[trigger] val_any_hits(
                vals,
                set,
                to,
            )[q]).to == to,
    decreases vals.len(),
{
    if vals.len() > 0 {
        lemma_val_any_hits_to(vals.drop_last(), set, to);
        let f_all = val_any_hits(vals, set, to);
        let f_rest = val_any_hits(vals.drop_last(), set, to);
        assert forall|q: int| 0 <= q < f_all.len() implies (#[trigger] f_all[q]).to == to by {
            if q < f_rest.len() {
                assert(f_all[q] == f_rest[q]);
            }
        }
    }
}

/// Conjunction hits reach where the left side reached.
pub proof fn lemma_all_hits_in_bounds(ra: Seq<HitV>, rb: Seq<HitV>, n: int)
    requires
        forall|q: int| 0 <= q < ra.len() ==> (#[trigger] ra[q]).to < n,
    ensures
        forall|q: int|
            0 <= q < all_hits(ra, rb).len() ==> (#[trigger] all_hits(ra, rb)[q]).to < n,
    decreases ra.len(),
{
    if ra.len() > 0 {
        lemma_all_hits_in_bounds(ra.drop_last(), rb, n);
        lemma_pair_hits_in_bounds(ra.last(), rb, n);
        let f_all = all_hits(ra, rb);
        let f_rest = all_hits(ra.drop_last(), rb);
        let g = pair_hits(ra.last(), rb);
        assert forall|q: int| 0 <= q < f_all.len() implies (#[trigger] f_all[q]).to < n by {
            if q < f_rest.len() {
                assert(f_all[q] == f_rest[q]);
            } else {
                assert(f_all[q] == g[q - f_rest.len()]);
            }
        }
    }
}

/// Paired hits reach where the left hit reached.
pub proof fn lemma_pair_hits_in_bounds(hit: HitV, rb: Seq<HitV>, n: int)
    requires
        hit.to < n,
    ensures
        forall|q: int|
            0 <= q < pair_hits(hit, rb).len() ==> (#[trigger] pair_hits(hit, rb)[q]).to < n,
    decreases rb.len(),
{
    if rb.len() > 0 {
        lemma_pair_hits_in_bounds(hit, rb.drop_last(), n);
        let f_all = pair_hits(hit, rb);
        let f_rest = pair_hits(hit, rb.drop_last());
        assert forall|q: int| 0 <= q < f_all.len() implies (#[trigger] f_all[q]).to < n by {
            if q < f_rest.len() {
                assert(f_all[q] == f_rest[q]);
            }
        }
    }
}

/// Tagged hits reach where the underlying hits reached.
pub proof fn lemma_tag_hits_in_bounds(rs: Seq<HitV>, branch: u64, n: int)
    requires
        forall|q: int| 0 <= q < rs.len() ==> (#[trigger] rs[q]).to < n,
    ensures
        forall|q: int|
            0 <= q < tag_hits(rs, branch).len() ==> (#[trigger] tag_hits(rs, branch)[q]).to < n,
    decreases rs.len(),
{
    if rs.len() > 0 {
        lemma_tag_hits_in_bounds(rs.drop_last(), branch, n);
        let f_all = tag_hits(rs, branch);
        let f_rest = tag_hits(rs.drop_last(), branch);
        assert forall|q: int| 0 <= q < f_all.len() implies (#[trigger] f_all[q]).to < n by {
            if q < f_rest.len() {
                assert(f_all[q] == f_rest[q]);
            }
        }
    }
}

/// Prefixed hits reach where the underlying hits reached.
pub proof fn lemma_prefix_hits_in_bounds(parts: Seq<OutPartV>, rs: Seq<HitV>, n: int)
    requires
        forall|q: int| 0 <= q < rs.len() ==> (#[trigger] rs[q]).to < n,
    ensures
        forall|q: int|
            0 <= q < prefix_hits(parts, rs).len() ==> (#[trigger] prefix_hits(
                parts,
                rs,
            )[q]).to < n,
    decreases rs.len(),
{
    if rs.len() > 0 {
        lemma_prefix_hits_in_bounds(parts, rs.drop_last(), n);
        let f_all = prefix_hits(parts, rs);
        let f_rest = prefix_hits(parts, rs.drop_last());
        assert forall|q: int| 0 <= q < f_all.len() implies (#[trigger] f_all[q]).to < n by {
            if q < f_rest.len() {
                assert(f_all[q] == f_rest[q]);
            }
        }
    }
}

/// Evaluate a list of values into hits, appending to `out`.
fn push_val_hits(out: &mut Vec<(Vec<OutPart>, ToIdx)>, vals: &Vec<AttrData>, to: usize)
    ensures
        hits_view(final(out)@) == hits_view(old(out)@) + val_hits(
            crate::type_bucket::datas_view(vals@),
            to,
        ),
{
    let ghost base = hits_view(out@);
    let ghost dv = crate::type_bucket::datas_view(vals@);
    let n = vals.len();
    let mut j: usize = 0;
    proof {
        assert(hits_view(out@) =~= base + val_hits(dv.take(0), to));
    }
    while j < n
        invariant
            n == vals@.len(),
            j <= n,
            dv == crate::type_bucket::datas_view(vals@),
            hits_view(out@) == base + val_hits(dv.take(j as int), to),
        decreases n - j,
    {
        let mut parts: Vec<OutPart> = Vec::new();
        parts.push(OutPart::Val(vals[j].clone()));
        proof {
            assert(parts_view(parts@) =~= seq![OutPartV::Val(dv[j as int])]);
        }
        let ghost pre_out = out@;
        let ghost newhit = HitV { parts: seq![OutPartV::Val(dv[j as int])], to };
        out.push((parts, ToIdx(to)));
        j += 1;
        proof {
            assert(hits_view(out@) =~~= hits_view(pre_out).push(newhit));
            assert(dv.take(j as int).drop_last() =~= dv.take(j - 1));
            assert(dv.take(j as int).last() == dv[j - 1]);
            assert(val_hits(dv.take(j as int), to) == val_hits(dv.take(j - 1), to).push(newhit));
            assert(hits_view(out@) =~~= base + val_hits(dv.take(j as int), to));
        }
    }
    proof {
        assert(dv.take(n as int) =~= dv);
    }
}

/// Evaluate a list of values into equality-witness hits, appending to
/// `out`.
fn push_val_eq_hits(out: &mut Vec<(Vec<OutPart>, ToIdx)>, vals: &Vec<AttrData>, eq: &AttrData, to: usize)
    ensures
        hits_view(final(out)@) == hits_view(old(out)@) + val_eq_hits(
            crate::type_bucket::datas_view(vals@),
            eq@,
            to,
        ),
{
    let ghost base = hits_view(out@);
    let ghost dv = crate::type_bucket::datas_view(vals@);
    let n = vals.len();
    let mut j: usize = 0;
    proof {
        assert(hits_view(out@) =~= base + val_eq_hits(dv.take(0), eq@, to));
    }
    while j < n
        invariant
            n == vals@.len(),
            j <= n,
            dv == crate::type_bucket::datas_view(vals@),
            hits_view(out@) == base + val_eq_hits(dv.take(j as int), eq@, to),
        decreases n - j,
    {
        proof {
            assert(dv.take(j + 1).drop_last() =~= dv.take(j as int));
        }
        if &vals[j] == eq {
            let mut parts: Vec<OutPart> = Vec::new();
            parts.push(OutPart::Unit);
            proof {
                assert(parts_view(parts@) =~= seq![OutPartV::Unit]);
            }
            let ghost pre_out = out@;
            let ghost newhit = HitV { parts: seq![OutPartV::Unit], to };
            out.push((parts, ToIdx(to)));
            j += 1;
            proof {
                assert(hits_view(out@) =~~= hits_view(pre_out).push(newhit));
                assert(dv.take(j as int).last() == dv[j - 1]);
                assert(dv[j - 1] == eq@);
                assert(val_eq_hits(dv.take(j as int), eq@, to) == val_eq_hits(
                    dv.take(j - 1),
                    eq@,
                    to,
                ).push(newhit));
                assert(hits_view(out@) =~~= base + val_eq_hits(dv.take(j as int), eq@, to));
            }
        } else {
            j += 1;
            proof {
                assert(dv.take(j as int).last() == dv[j - 1]);
                assert(dv[j - 1] != eq@);
                assert(val_eq_hits(dv.take(j as int), eq@, to) == val_eq_hits(
                    dv.take(j - 1),
                    eq@,
                    to,
                ));
            }
        }
    }
    proof {
        assert(dv.take(n as int) =~= dv);
    }
}

/// Whether one of the set's values equals `v`.
fn set_contains(set: &Vec<AttrData>, v: &AttrData) -> (r: bool)
    ensures
        r == set_contains_v(set@, v@),
{
    let n = set.len();
    let mut q: usize = 0;
    while q < n
        invariant
            n == set@.len(),
            q <= n,
            forall|p: int| 0 <= p < q ==> (#[trigger] set@[p])@ != v@,
        decreases n - q,
    {
        if &set[q] == v {
            return true;
        }
        q += 1;
    }
    false
}

/// Evaluate a list of values into membership hits, appending to `out`.
fn push_val_any_hits(out: &mut Vec<(Vec<OutPart>, ToIdx)>, vals: &Vec<AttrData>, set: &Vec<AttrData>, to: usize)
    ensures
        hits_view(final(out)@) == hits_view(old(out)@) + val_any_hits(
            crate::type_bucket::datas_view(vals@),
            set@,
            to,
        ),
{
    let ghost base = hits_view(out@);
    let ghost dv = crate::type_bucket::datas_view(vals@);
    let n = vals.len();
    let mut j: usize = 0;
    proof {
        assert(hits_view(out@) =~= base + val_any_hits(dv.take(0), set@, to));
    }
    while j < n
        invariant
            n == vals@.len(),
            j <= n,
            dv == crate::type_bucket::datas_view(vals@),
            hits_view(out@) == base + val_any_hits(dv.take(j as int), set@, to),
        decreases n - j,
    {
        proof {
            assert(dv.take(j + 1).drop_last() =~= dv.take(j as int));
        }
        if set_contains(set, &vals[j]) {
            let mut parts: Vec<OutPart> = Vec::new();
            parts.push(OutPart::Val(vals[j].clone()));
            proof {
                assert(parts_view(parts@) =~= seq![OutPartV::Val(dv[j as int])]);
            }
            let ghost pre_out = out@;
            let ghost newhit = HitV { parts: seq![OutPartV::Val(dv[j as int])], to };
            out.push((parts, ToIdx(to)));
            j += 1;
            proof {
                assert(hits_view(out@) =~~= hits_view(pre_out).push(newhit));
                assert(dv.take(j as int).last() == dv[j - 1]);
                assert(set_contains_v(set@, dv[j - 1]));
                assert(val_any_hits(dv.take(j as int), set@, to) == val_any_hits(
                    dv.take(j - 1),
                    set@,
                    to,
                ).push(newhit));
                assert(hits_view(out@) =~~= base + val_any_hits(dv.take(j as int), set@, to));
            }
        } else {
            j += 1;
            proof {
                assert(dv.take(j as int).last() == dv[j - 1]);
                assert(!set_contains_v(set@, dv[j - 1]));
                assert(val_any_hits(dv.take(j as int), set@, to) == val_any_hits(
                    dv.take(j - 1),
                    set@,
                    to,
                ));
            }
        }
    }
    proof {
        assert(dv.take(n as int) =~= dv);
    }
}

/// The concatenation of two part lists.
fn concat_parts(a: &Vec<OutPart>, b: &Vec<OutPart>) -> (r: Vec<OutPart>)
    ensures
        parts_view(r@) == parts_view(a@) + parts_view(b@),
{
    let mut out: Vec<OutPart> = Vec::new();
    let na = a.len();
    let mut i: usize = 0;
    while i < na
        invariant
            na == a@.len(),
            i <= na,
            out@.len() == i,
            forall|q: int| 0 <= q < i ==> (#[trigger] out@[q])@ == a@[q]@,
        decreases na - i,
    {
        out.push(a[i].clone());
        i += 1;
    }
    let nb = b.len();
    let mut j: usize = 0;
    while j < nb
        invariant
            na == a@.len(),
            nb == b@.len(),
            j <= nb,
            out@.len() == na + j,
            forall|q: int| 0 <= q < na ==> (#[trigger] out@[q])@ == a@[q]@,
            forall|q: int| na <= q < na + j ==> (#[trigger] out@[q])@ == b@[q - na]@,
        decreases nb - j,
    {
        out.push(b[j].clone());
        j += 1;
    }
    proof {
        assert(parts_view(out@) =~= parts_view(a@) + parts_view(b@));
    }
    out
}

/// The boundary just past `idx`, or nothing at the line's edge.
fn dir_after_exec(dir: Direction, idx: usize, n: usize) -> (r: Option<usize>)
    requires
        idx < n,
    ensures
        r == dir_after(dir, idx, n as nat),
        r matches Some(j) ==> j < n,
{
    match dir {
        Direction::Forwards => {
            if idx + 1 < n {
                Some(idx + 1)
            } else {
                None
            }
        },
        Direction::Backwards => {
            if idx >= 1 {
                Some(idx - 1)
            } else {
                None
            }
        },
    }
}

impl Matcher {
    /// Evaluate this matcher at boundary `at` in direction `dir`.
    ///
    /// The result is exactly [`eval`] of the line's model.
    pub fn go(&self, dir: Direction, at: usize, line: &LLLine) -> (r: Vec<(Vec<OutPart>, ToIdx)>)
        requires
            line.wf(),
            at < line@.tokens.len(),
        ensures
            hits_view(r@) == eval(*self, line@, dir, at),
        decreases *self, 1nat,
    {
        let mut out: Vec<(Vec<OutPart>, ToIdx)> = Vec::new();
        match self {
            Matcher::TokenText => {
                match &line.token_at(at).token {
                    LToken::Text(s, _) => {
                        let mut parts: Vec<OutPart> = Vec::new();
                        parts.push(OutPart::Text(s.clone()));
                        out.push((parts, ToIdx(at)));
                        proof {
                            assert(hits_view(out@) =~~= eval(*self, line@, dir, at));
                        }
                    },
                    LToken::Value => {
                        proof {
                            assert(hits_view(out@) =~= eval(*self, line@, dir, at));
                        }
                    },
                }
            },
            Matcher::Attr(k) => {
                let ranges = match dir {
                    Direction::Forwards => line.starts_probe(at, *k),
                    Direction::Backwards => line.ends_probe(at, *k),
                };
                let ghost rgs = ranges@;
                let nr = ranges.len();
                let mut i: usize = 0;
                proof {
                    assert(hits_view(out@) =~= attr_hits(line@, dir, *k, rgs.take(0)));
                }
                while i < nr
                    invariant
                        line.wf(),
                        nr == ranges@.len(),
                        i <= nr,
                        rgs == ranges@,
                        hits_view(out@) == attr_hits(line@, dir, *k, rgs.take(i as int)),
                    decreases nr - i,
                {
                    let range = ranges[i];
                    let vals = line.values_probe(range, *k);
                    let to = match dir {
                        Direction::Forwards => range.1,
                        Direction::Backwards => range.0,
                    };
                    push_val_hits(&mut out, &vals, to);
                    i += 1;
                    proof {
                        assert(rgs.take(i as int).drop_last() =~= rgs.take(i - 1));
                    }
                }
                proof {
                    assert(rgs.take(nr as int) =~= rgs);
                    assert(hits_view(out@) == eval(*self, line@, dir, at));
                }
            },
            Matcher::AttrEq(eq) => {
                let k = eq.kind();
                let ranges = match dir {
                    Direction::Forwards => line.starts_probe(at, k),
                    Direction::Backwards => line.ends_probe(at, k),
                };
                let ghost rgs = ranges@;
                let nr = ranges.len();
                let mut i: usize = 0;
                proof {
                    assert(hits_view(out@) =~= attr_eq_hits(line@, dir, eq@, rgs.take(0)));
                }
                while i < nr
                    invariant
                        line.wf(),
                        nr == ranges@.len(),
                        i <= nr,
                        rgs == ranges@,
                        k == kind_of(eq@),
                        hits_view(out@) == attr_eq_hits(line@, dir, eq@, rgs.take(i as int)),
                    decreases nr - i,
                {
                    let range = ranges[i];
                    let vals = line.values_probe(range, k);
                    let to = match dir {
                        Direction::Forwards => range.1,
                        Direction::Backwards => range.0,
                    };
                    push_val_eq_hits(&mut out, &vals, eq, to);
                    i += 1;
                    proof {
                        assert(rgs.take(i as int).drop_last() =~= rgs.take(i - 1));
                    }
                }
                proof {
                    assert(rgs.take(nr as int) =~= rgs);
                    assert(hits_view(out@) == eval(*self, line@, dir, at));
                }
            },
            Matcher::TokenHasAny(set) => {
                if set.len() == 0 {
                    proof {
                        assert(hits_view(out@) =~= eval(*self, line@, dir, at));
                    }
                } else {
                    let k0 = set[0].kind();
                    let vals = line.values_probe((at, at), k0);
                    push_val_any_hits(&mut out, &vals, set, at);
                    proof {
                        assert(hits_view(out@) == eval(*self, line@, dir, at));
                    }
                }
            },
            Matcher::All2(a, b) => {
                let ra = a.go(dir, at, line);
                let rb = b.go(dir, at, line);
                out = combine_all(&ra, &rb);
                proof {
                    assert(hits_view(out@) == eval(*self, line@, dir, at));
                }
            },
            Matcher::All3(a, b, c) => {
                let ra = a.go(dir, at, line);
                let rb = b.go(dir, at, line);
                let rc = c.go(dir, at, line);
                let rbc = combine_all(&rb, &rc);
                out = combine_all(&ra, &rbc);
                proof {
                    assert(hits_view(out@) == eval(*self, line@, dir, at));
                }
            },
            Matcher::AnyOf2(a, b) => {
                let ra = a.go(dir, at, line);
                if ra.len() > 0 {
                    out = tag_branch(&ra, 0);
                } else {
                    let rb = b.go(dir, at, line);
                    out = tag_branch(&rb, 1);
                }
                proof {
                    assert(hits_view(out@) == eval(*self, line@, dir, at));
                }
            },
            Matcher::AnyOf3(a, b, c) => {
                let ra = a.go(dir, at, line);
                if ra.len() > 0 {
                    out = tag_branch(&ra, 0);
                } else {
                    let rb = b.go(dir, at, line);
                    if rb.len() > 0 {
                        out = tag_branch(&rb, 1);
                    } else {
                        let rc = c.go(dir, at, line);
                        out = tag_branch(&rc, 2);
                    }
                }
                proof {
                    assert(hits_view(out@) == eval(*self, line@, dir, at));
                }
            },
            Matcher::Seq2(a, b) => {
                let ra = a.go(dir, at, line);
                proof {
                    lemma_eval_in_bounds(**a, line@, dir, at);
                    assert forall|q: int| 0 <= q < ra@.len() implies (#[trigger] ra@[q]).1.0
                        < line@.tokens.len() by {
                        assert(hits_view(ra@)[q].to == ra@[q].1.0);
                    }
                }
                out = chain_step(&ra, b, dir, line);
                proof {
                    assert(hits_view(out@) == eval(*self, line@, dir, at));
                }
            },
            Matcher::Seq3(a, b, c) => {
                let ra = a.go(dir, at, line);
                proof {
                    lemma_eval_in_bounds(**a, line@, dir, at);
                    assert forall|q: int| 0 <= q < ra@.len() implies (#[trigger] ra@[q]).1.0
                        < line@.tokens.len() by {
                        assert(hits_view(ra@)[q].to == ra@[q].1.0);
                    }
                }
                let rab = chain_step(&ra, b, dir, line);
                proof {
                    lemma_seq_chain_in_bounds(hits_view(ra@), **b, line@, dir);
                    assert forall|q: int| 0 <= q < rab@.len() implies (#[trigger] rab@[q]).1.0
                        < line@.tokens.len() by {
                        assert(hits_view(rab@)[q].to == rab@[q].1.0);
                    }
                }
                out = chain_step(&rab, c, dir, line);
                proof {
                    assert(hits_view(out@) == eval(*self, line@, dir, at));
                }
            },
        }
        out
    }
}

/// Pair every hit of `ra` with every hit of `rb` reaching the same index.
fn combine_all(ra: &Vec<(Vec<OutPart>, ToIdx)>, rb: &Vec<(Vec<OutPart>, ToIdx)>) -> (r: Vec<
    (Vec<OutPart>, ToIdx),
>)
    ensures
        hits_view(r@) == all_hits(hits_view(ra@), hits_view(rb@)),
{
    let ghost va = hits_view(ra@);
    let ghost vb = hits_view(rb@);
    let mut out: Vec<(Vec<OutPart>, ToIdx)> = Vec::new();
    let na = ra.len();
    let mut i: usize = 0;
    proof {
        assert(hits_view(out@) =~= all_hits(va.take(0), vb));
    }
    while i < na
        invariant
            na == ra@.len(),
            i <= na,
            va == hits_view(ra@),
            vb == hits_view(rb@),
            hits_view(out@) == all_hits(va.take(i as int), vb),
        decreases na - i,
    {
        let nb = rb.len();
        let mut j: usize = 0;
        proof {
            assert(hits_view(out@) =~= all_hits(va.take(i as int), vb) + pair_hits(
                va[i as int],
                vb.take(0),
            ));
        }
        while j < nb
            invariant
                na == ra@.len(),
                nb == rb@.len(),
                i < na,
                j <= nb,
                va == hits_view(ra@),
                vb == hits_view(rb@),
                hits_view(out@) == all_hits(va.take(i as int), vb) + pair_hits(
                    va[i as int],
                    vb.take(j as int),
                ),
            decreases nb - j,
        {
            proof {
                assert(vb.take(j + 1).drop_last() =~= vb.take(j as int));
            }
            if rb[j].1.0 == ra[i].1.0 {
                let parts = concat_parts(&ra[i].0, &rb[j].0);
                let ghost pre_out = out@;
                let ghost newhit = HitV {
                    parts: va[i as int].parts + vb[j as int].parts,
                    to: va[i as int].to,
                };
                proof {
                    assert(va[i as int].parts == parts_view(ra@[i as int].0@));
                    assert(vb[j as int].parts == parts_view(rb@[j as int].0@));
                    assert(parts_view(parts@) == newhit.parts);
                }
                out.push((parts, ToIdx(ra[i].1.0)));
                j += 1;
                proof {
                    assert(hits_view(out@) =~~= hits_view(pre_out).push(newhit));
                    assert(vb.take(j as int).last() == vb[j - 1]);
                    assert(pair_hits(va[i as int], vb.take(j as int)) == pair_hits(
                        va[i as int],
                        vb.take(j - 1),
                    ).push(newhit));
                    assert(hits_view(out@) =~~= all_hits(va.take(i as int), vb) + pair_hits(
                        va[i as int],
                        vb.take(j as int),
                    ));
                }
            } else {
                j += 1;
                proof {
                    assert(vb.take(j as int).last() == vb[j - 1]);
                    assert(vb[j - 1].to != va[i as int].to);
                    assert(pair_hits(va[i as int], vb.take(j as int)) == pair_hits(
                        va[i as int],
                        vb.take(j - 1),
                    ));
                }
            }
        }
        i += 1;
        proof {
            assert(vb.take(nb as int) =~= vb);
            assert(va.take(i as int).drop_last() =~= va.take(i - 1));
            assert(hits_view(out@) == all_hits(va.take(i as int), vb));
        }
    }
    proof {
        assert(va.take(na as int) =~= va);
    }
    out
}

/// Prepend the winning branch number to every hit.
fn tag_branch(rs: &Vec<(Vec<OutPart>, ToIdx)>, branch: u64) -> (r: Vec<(Vec<OutPart>, ToIdx)>)
    ensures
        hits_view(r@) == tag_hits(hits_view(rs@), branch),
{
    let ghost vs = hits_view(rs@);
    let mut out: Vec<(Vec<OutPart>, ToIdx)> = Vec::new();
    let n = rs.len();
    let mut i: usize = 0;
    proof {
        assert(hits_view(out@) =~= tag_hits(vs.take(0), branch));
    }
    while i < n
        invariant
            n == rs@.len(),
            i <= n,
            vs == hits_view(rs@),
            hits_view(out@) == tag_hits(vs.take(i as int), branch),
        decreases n - i,
    {
        let mut tagged: Vec<OutPart> = Vec::new();
        tagged.push(OutPart::Branch(branch));
        let parts = concat_parts(&tagged, &rs[i].0);
        proof {
            assert(parts_view(tagged@) =~= seq![OutPartV::Branch(branch)]);
        }
        out.push((parts, ToIdx(rs[i].1.0)));
        i += 1;
        proof {
            assert(vs.take(i as int).drop_last() =~= vs.take(i - 1));
            assert(hits_view(out@) =~~= tag_hits(vs.take(i as int), branch));
        }
    }
    proof {
        assert(vs.take(n as int) =~= vs);
    }
    out
}

/// Continue each hit with `next`, evaluated just past its reached index.
fn chain_step(ra: &Vec<(Vec<OutPart>, ToIdx)>, next: &Matcher, dir: Direction, line: &LLLine) -> (r:
    Vec<(Vec<OutPart>, ToIdx)>)
    requires
        line.wf(),
        forall|q: int| 0 <= q < ra@.len() ==> (#[trigger] ra@[q]).1.0 < line@.tokens.len(),
    ensures
        hits_view(r@) == seq_chain(hits_view(ra@), *next, line@, dir),
    decreases *next, 2nat,
{
    let ghost va = hits_view(ra@);
    let mut out: Vec<(Vec<OutPart>, ToIdx)> = Vec::new();
    let n = ra.len();
    let mut i: usize = 0;
    proof {
        assert(hits_view(out@) =~= seq_chain(va.take(0), *next, line@, dir));
    }
    while i < n
        invariant
            line.wf(),
            n == ra@.len(),
            i <= n,
            va == hits_view(ra@),
            forall|q: int| 0 <= q < ra@.len() ==> (#[trigger] ra@[q]).1.0 < line@.tokens.len(),
            hits_view(out@) == seq_chain(va.take(i as int), *next, line@, dir),
        decreases n - i,
    {
        proof {
            assert(va.take(i + 1).drop_last() =~= va.take(i as int));
        }
        let to = ra[i].1.0;
        match dir_after_exec(dir, to, line.ll_tokens().len()) {
            Some(jdx) => {
                let rb = next.go(dir, jdx, line);
                let ghost vbase = hits_view(out@);
                let ghost vb = hits_view(rb@);
                let nb = rb.len();
                let mut j: usize = 0;
                proof {
                    assert(hits_view(out@) =~= vbase + prefix_hits(va[i as int].parts, vb.take(0)));
                }
                while j < nb
                    invariant
                        n == ra@.len(),
                        nb == rb@.len(),
                        i < n,
                        j <= nb,
                        va == hits_view(ra@),
                        vb == hits_view(rb@),
                        hits_view(out@) == vbase + prefix_hits(va[i as int].parts, vb.take(j as int)),
                    decreases nb - j,
                {
                    proof {
                        assert(vb.take(j + 1).drop_last() =~= vb.take(j as int));
                    }
                    let parts = concat_parts(&ra[i].0, &rb[j].0);
                    let ghost pre_out = out@;
                    let ghost newhit = HitV {
                        parts: va[i as int].parts + vb[j as int].parts,
                        to: vb[j as int].to,
                    };
                    proof {
                        assert(va[i as int].parts == parts_view(ra@[i as int].0@));
                        assert(vb[j as int].parts == parts_view(rb@[j as int].0@));
                        assert(parts_view(parts@) == newhit.parts);
                    }
                    out.push((parts, rb[j].1));
                    j += 1;
                    proof {
                        assert(hits_view(out@) =~~= hits_view(pre_out).push(newhit));
                        assert(vb.take(j as int).last() == vb[j - 1]);
                        assert(prefix_hits(va[i as int].parts, vb.take(j as int)) == prefix_hits(
                            va[i as int].parts,
                            vb.take(j - 1),
                        ).push(newhit));
                        assert(hits_view(out@) =~~= vbase + prefix_hits(
                            va[i as int].parts,
                            vb.take(j as int),
                        ));
                    }
                }
                proof {
                    assert(vb.take(nb as int) =~= vb);
                }
            },
            None => {
            },
        }
        i += 1;
        proof {
            assert(hits_view(out@) =~~= seq_chain(va.take(i as int), *next, line@, dir));
        }
    }
    proof {
        assert(va.take(n as int) =~= va);
    }
    out
}


/// Forward hits never reach left of the boundary; backward hits never
/// reach right of it.
pub open spec fn dir_reaches_ok(dir: Direction, at: usize, to: usize) -> bool {
    match dir {
        Direction::Forwards => to >= at,
        Direction::Backwards => to <= at,
    }
}

/// Every hit reaches on the probed side of the boundary.
pub proof fn lemma_eval_directional(m: Matcher, line: LLLineV, dir: Direction, at: usize)
    requires
        line.wf(),
        at < line.tokens.len(),
    ensures
        forall|q: int|
            0 <= q < eval(m, line, dir, at).len() ==> dir_reaches_ok(
                dir,
                at,
                (#[trigger] eval(m, line, dir, at)[q]).to,
            ),
    decreases m, 1nat,
{
    let n = line.tokens.len();
    let rs = eval(m, line, dir, at);
    match m {
        Matcher::TokenText => {},
        Matcher::Attr(k) => {
            lemma_attr_hits_directional(line, dir, at, k, probe_ranges(line, dir, at as int, k));
        },
        Matcher::AttrEq(eq) => {
            lemma_attr_eq_hits_directional(
                line,
                dir,
                at,
                eq@,
                probe_ranges(line, dir, at as int, kind_of(eq@)),
            );
        },
        Matcher::TokenHasAny(set) => {
            if set@.len() > 0 {
                lemma_val_any_hits_to(
                    line.attrs.values_at((at, at), kind_of(set@[0]@)),
                    set@,
                    at,
                );
            }
        },
        Matcher::All2(a, b) => {
            lemma_eval_directional(*a, line, dir, at);
            lemma_all_hits_directional(eval(*a, line, dir, at), eval(*b, line, dir, at), dir, at);
        },
        Matcher::All3(a, b, c) => {
            lemma_eval_directional(*a, line, dir, at);
            lemma_all_hits_directional(
                eval(*a, line, dir, at),
                all_hits(eval(*b, line, dir, at), eval(*c, line, dir, at)),
                dir,
                at,
            );
        },
        Matcher::AnyOf2(a, b) => {
            lemma_eval_directional(*a, line, dir, at);
            lemma_eval_directional(*b, line, dir, at);
            lemma_tag_hits_directional(eval(*a, line, dir, at), 0, dir, at);
            lemma_tag_hits_directional(eval(*b, line, dir, at), 1, dir, at);
        },
        Matcher::AnyOf3(a, b, c) => {
            lemma_eval_directional(*a, line, dir, at);
            lemma_eval_directional(*b, line, dir, at);
            lemma_eval_directional(*c, line, dir, at);
            lemma_tag_hits_directional(eval(*a, line, dir, at), 0, dir, at);
            lemma_tag_hits_directional(eval(*b, line, dir, at), 1, dir, at);
            lemma_tag_hits_directional(eval(*c, line, dir, at), 2, dir, at);
        },
        Matcher::Seq2(a, b) => {
            lemma_eval_in_bounds(*a, line, dir, at);
            lemma_eval_directional(*a, line, dir, at);
            lemma_seq_chain_directional(eval(*a, line, dir, at), *b, line, dir, at);
            assert(rs == seq_chain(eval(*a, line, dir, at), *b, line, dir));
        },
        Matcher::Seq3(a, b, c) => {
            lemma_eval_in_bounds(*a, line, dir, at);
            lemma_eval_directional(*a, line, dir, at);
            lemma_seq_chain_directional(eval(*a, line, dir, at), *b, line, dir, at);
            lemma_seq_chain_in_bounds(eval(*a, line, dir, at), *b, line, dir);
            lemma_seq_chain_directional(
                seq_chain(eval(*a, line, dir, at), *b, line, dir),
                *c,
                line,
                dir,
                at,
            );
            assert(rs == seq_chain(
                seq_chain(eval(*a, line, dir, at), *b, line, dir),
                *c,
                line,
                dir,
            ));
        },
    }
}

/// Chained hits stay on the probed side of the original boundary.
pub proof fn lemma_seq_chain_directional(
    ra: Seq<HitV>,
    next: Matcher,
    line: LLLineV,
    dir: Direction,
    at: usize,
)
    requires
        line.wf(),
        forall|q: int| 0 <= q < ra.len() ==> (#[trigger] ra[q]).to < line.tokens.len(),
        forall|q: int| 0 <= q < ra.len() ==> dir_reaches_ok(dir, at, (#[trigger] ra[q]).to),
    ensures
        forall|q: int|
            0 <= q < seq_chain(ra, next, line, dir).len() ==> dir_reaches_ok(
                dir,
                at,
                (#[trigger] seq_chain(ra, next, line, dir)[q]).to,
            ),
    decreases next, ra.len() + 2nat,
{
    if ra.len() > 0 {
        lemma_seq_chain_directional(ra.drop_last(), next, line, dir, at);
        let f_all = seq_chain(ra, next, line, dir);
        let f_rest = seq_chain(ra.drop_last(), next, line, dir);
        match dir_after(dir, ra.last().to, line.tokens.len()) {
            Some(j) => {
                lemma_eval_directional(next, line, dir, j);
                let rb = eval(next, line, dir, j);
                let g = prefix_hits(ra.last().parts, rb);
                assert(ra[ra.len() - 1] == ra.last());
                assert(dir_reaches_ok(dir, at, ra.last().to));
                match dir {
                    Direction::Forwards => {
                        assert(j == ra.last().to + 1);
                    },
                    Direction::Backwards => {
                        assert(j == ra.last().to - 1);
                    },
                }
                assert(dir_reaches_ok(dir, at, j));
                lemma_prefix_hits_elems(ra.last().parts, rb);
                assert forall|q: int| 0 <= q < g.len() implies dir_reaches_ok(
                    dir,
                    at,
                    (#[trigger] g[q]).to,
                ) by {
                    assert(g[q].to == rb[q].to);
                    assert(dir_reaches_ok(dir, j, rb[q].to));
                }
                assert forall|q: int| 0 <= q < f_all.len() implies dir_reaches_ok(
                    dir,
                    at,
                    (#[trigger] f_all[q]).to,
                ) by {
                    if q < f_rest.len() {
                        assert(f_all[q] == f_rest[q]);
                    } else {
                        assert(f_all[q] == g[q - f_rest.len()]);
                    }
                }
            },
            None => {
                assert(f_all =~= f_rest);
            },
        }
    }
}

/// Prefixing parts keeps each hit's reach and count.
pub proof fn lemma_prefix_hits_elems(parts: Seq<OutPartV>, rs: Seq<HitV>)
    ensures
        prefix_hits(parts, rs).len() == rs.len(),
        forall|q: int|
            0 <= q < rs.len() ==> (#[trigger] prefix_hits(parts, rs)[q]) == (HitV {
                parts: parts + rs[q].parts,
                to: rs[q].to,
            }),
    decreases rs.len(),
{
    if rs.len() > 0 {
        lemma_prefix_hits_elems(parts, rs.drop_last());
        let f_all = prefix_hits(parts, rs);
        let f_rest = prefix_hits(parts, rs.drop_last());
        assert forall|q: int| 0 <= q < rs.len() implies (#[trigger] f_all[q]) == HitV {
            parts: parts + rs[q].parts,
            to: rs[q].to,
        } by {
            if q < f_rest.len() {
                assert(f_all[q] == f_rest[q]);
                assert(rs.drop_last()[q] == rs[q]);
            }
        }
    }
}

/// Attribute hits reach on the probed side.
pub proof fn lemma_attr_hits_directional(
    line: LLLineV,
    dir: Direction,
    at: usize,
    k: AttrKind,
    ranges: Seq<LRange>,
)
    requires
        line.wf(),
        at < line.tokens.len(),
        ranges == probe_ranges(line, dir, at as int, k),
    ensures
        forall|q: int|
            0 <= q < attr_hits(line, dir, k, ranges).len() ==> dir_reaches_ok(
                dir,
                at,
                (#[trigger] attr_hits(line, dir, k, ranges)[q]).to,
            ),
{
    lemma_probe_reach_ok(line, dir, at, k);
    lemma_attr_hits_directional_rec(line, dir, at, k, ranges);
}

/// The probed ranges start (forwards) or end (backwards) at the boundary,
/// so their far ends lie on the probed side.
pub proof fn lemma_probe_reach_ok(line: LLLineV, dir: Direction, at: usize, k: AttrKind)
    requires
        line.wf(),
        at < line.tokens.len(),
    ensures
        forall|q: int|
            0 <= q < probe_ranges(line, dir, at as int, k).len() ==> dir_reaches_ok(
                dir,
                at,
                reach_of(dir, #[trigger] probe_ranges(line, dir, at as int, k)[q]),
            ),
{
    let rgs = probe_ranges(line, dir, at as int, k);
    assert forall|q: int| 0 <= q < rgs.len() implies dir_reaches_ok(
        dir,
        at,
        reach_of(dir, #[trigger] rgs[q]),
    ) by {
        let r = rgs[q];
        match dir {
            Direction::Forwards => {
                assert(line.attrs.starts_ranges(at as int, k).contains(r));
                assert(line.attrs.values_at(r, k).len() > 0);
                assert(line.attrs.kind_ranges(k).contains(r));
                assert(r.0 == at && r.0 <= r.1);
            },
            Direction::Backwards => {
                assert(line.attrs.ends_ranges(at as int, k).contains(r));
                assert(line.attrs.values_at(r, k).len() > 0);
                assert(line.attrs.kind_ranges(k).contains(r));
                assert(r.1 == at && r.0 <= r.1);
            },
        }
    }
}

/// Helper for [`lemma_attr_hits_directional`], inducting over the ranges.
proof fn lemma_attr_hits_directional_rec(
    line: LLLineV,
    dir: Direction,
    at: usize,
    k: AttrKind,
    ranges: Seq<LRange>,
)
    requires
        forall|q: int|
            0 <= q < ranges.len() ==> dir_reaches_ok(dir, at, reach_of(dir, #[trigger] ranges[q])),
    ensures
        forall|q: int|
            0 <= q < attr_hits(line, dir, k, ranges).len() ==> dir_reaches_ok(
                dir,
                at,
                (#[trigger] attr_hits(line, dir, k, ranges)[q]).to,
            ),
    decreases ranges.len(),
{
    if ranges.len() > 0 {
        lemma_attr_hits_directional_rec(line, dir, at, k, ranges.drop_last());
        lemma_val_hits_to(
            line.attrs.values_at(ranges.last(), k),
            reach_of(dir, ranges.last()),
        );
        let f_all = attr_hits(line, dir, k, ranges);
        let f_rest = attr_hits(line, dir, k, ranges.drop_last());
        let g = val_hits(line.attrs.values_at(ranges.last(), k), reach_of(dir, ranges.last()));
        assert forall|q: int| 0 <= q < f_all.len() implies dir_reaches_ok(
            dir,
            at,
            (#[trigger] f_all[q]).to,
        ) by {
            if q < f_rest.len() {
                assert(f_all[q] == f_rest[q]);
            } else {
                assert(f_all[q] == g[q - f_rest.len()]);
            }
        }
    }
}

/// Equality hits reach on the probed side.
pub proof fn lemma_attr_eq_hits_directional(
    line: LLLineV,
    dir: Direction,
    at: usize,
    eq: AttrDataV,
    ranges: Seq<LRange>,
)
    requires
        line.wf(),
        at < line.tokens.len(),
        ranges == probe_ranges(line, dir, at as int, kind_of(eq)),
    ensures
        forall|q: int|
            0 <= q < attr_eq_hits(line, dir, eq, ranges).len() ==> dir_reaches_ok(
                dir,
                at,
                (#[trigger] attr_eq_hits(line, dir, eq, ranges)[q]).to,
            ),
{
    lemma_probe_reach_ok(line, dir, at, kind_of(eq));
    lemma_attr_eq_hits_directional_rec(line, dir, at, eq, ranges);
}

/// Helper for [`lemma_attr_eq_hits_directional`], inducting over the
/// ranges.
proof fn lemma_attr_eq_hits_directional_rec(
    line: LLLineV,
    dir: Direction,
    at: usize,
    eq: AttrDataV,
    ranges: Seq<LRange>,
)
    requires
        forall|q: int|
            0 <= q < ranges.len() ==> dir_reaches_ok(dir, at, reach_of(dir, #[trigger] ranges[q])),
    ensures
        forall|q: int|
            0 <= q < attr_eq_hits(line, dir, eq, ranges).len() ==> dir_reaches_ok(
                dir,
                at,
                (#[trigger] attr_eq_hits(line, dir, eq, ranges)[q]).to,
            ),
    decreases ranges.len(),
{
    if ranges.len() > 0 {
        lemma_attr_eq_hits_directional_rec(line, dir, at, eq, ranges.drop_last());
        lemma_val_eq_hits_to(
            line.attrs.values_at(ranges.last(), kind_of(eq)),
            eq,
            reach_of(dir, ranges.last()),
        );
        let f_all = attr_eq_hits(line, dir, eq, ranges);
        let f_rest = attr_eq_hits(line, dir, eq, ranges.drop_last());
        let g = val_eq_hits(
            line.attrs.values_at(ranges.last(), kind_of(eq)),
            eq,
            reach_of(dir, ranges.last()),
        );
        assert forall|q: int| 0 <= q < f_all.len() implies dir_reaches_ok(
            dir,
            at,
            (#[trigger] f_all[q]).to,
        ) by {
            if q < f_rest.len() {
                assert(f_all[q] == f_rest[q]);
            } else {
                assert(f_all[q] == g[q - f_rest.len()]);
            }
        }
    }
}

/// Conjunction hits reach where the left side reached.
pub proof fn lemma_all_hits_directional(ra: Seq<HitV>, rb: Seq<HitV>, dir: Direction, at: usize)
    requires
        forall|q: int| 0 <= q < ra.len() ==> dir_reaches_ok(dir, at, (#[trigger] ra[q]).to),
    ensures
        forall|q: int|
            0 <= q < all_hits(ra, rb).len() ==> dir_reaches_ok(
                dir,
                at,
                (#[trigger] all_hits(ra, rb)[q]).to,
            ),
    decreases ra.len(),
{
    if ra.len() > 0 {
        lemma_all_hits_directional(ra.drop_last(), rb, dir, at);
        lemma_pair_hits_reach(ra.last(), rb);
        let f_all = all_hits(ra, rb);
        let f_rest = all_hits(ra.drop_last(), rb);
        let g = pair_hits(ra.last(), rb);
        assert forall|q: int| 0 <= q < f_all.len() implies dir_reaches_ok(
            dir,
            at,
            (#[trigger] f_all[q]).to,
        ) by {
            if q < f_rest.len() {
                assert(f_all[q] == f_rest[q]);
            } else {
                assert(f_all[q] == g[q - f_rest.len()]);
            }
        }
    }
}

/// Paired hits reach where the left hit reached.
pub proof fn lemma_pair_hits_reach(hit: HitV, rb: Seq<HitV>)
    ensures
        forall|q: int|
            0 <= q < pair_hits(hit, rb).len() ==> (#[trigger] pair_hits(hit, rb)[q]).to == hit.to,
    decreases rb.len(),
{
    if rb.len() > 0 {
        lemma_pair_hits_reach(hit, rb.drop_last());
        let f_all = pair_hits(hit, rb);
        let f_rest = pair_hits(hit, rb.drop_last());
        assert forall|q: int| 0 <= q < f_all.len() implies (#[trigger] f_all[q]).to == hit.to by {
            if q < f_rest.len() {
                assert(f_all[q] == f_rest[q]);
            }
        }
    }
}

/// Tagged hits keep each hit's reach.
pub proof fn lemma_tag_hits_directional(rs: Seq<HitV>, branch: u64, dir: Direction, at: usize)
    requires
        forall|q: int| 0 <= q < rs.len() ==> dir_reaches_ok(dir, at, (#[trigger] rs[q]).to),
    ensures
        forall|q: int|
            0 <= q < tag_hits(rs, branch).len() ==> dir_reaches_ok(
                dir,
                at,
                (#[trigger] tag_hits(rs, branch)[q]).to,
            ),
    decreases rs.len(),
{
    if rs.len() > 0 {
        lemma_tag_hits_directional(rs.drop_last(), branch, dir, at);
        let f_all = tag_hits(rs, branch);
        let f_rest = tag_hits(rs.drop_last(), branch);
        assert forall|q: int| 0 <= q < f_all.len() implies dir_reaches_ok(
            dir,
            at,
            (#[trigger] f_all[q]).to,
        ) by {
            if q < f_rest.len() {
                assert(f_all[q] == f_rest[q]);
            }
        }
    }
}

/// Match a single token when it is a text token, capturing its text.
pub fn token_text() -> (r: Matcher)
    ensures
        r == Matcher::TokenText,
{
    Matcher::TokenText
}

/// Match every attribute value of kind `k` at the boundary.
pub fn attr(k: AttrKind) -> (r: Matcher)
    ensures
        r == Matcher::Attr(k),
{
    Matcher::Attr(k)
}

/// Match attribute values at the boundary equal to `a`.
pub fn attr_eq(a: &AttrData) -> (r: Matcher)
    ensures
        r matches Matcher::AttrEq(d) && d@ == a@,
{
    Matcher::AttrEq(a.clone())
}

/// Match a single-token attribute value equal to one of `set`.
pub fn token_has_any(set: &Vec<AttrData>) -> (r: Matcher)
    ensures
        r matches Matcher::TokenHasAny(v) && crate::type_bucket::datas_view(v@)
            == crate::type_bucket::datas_view(set@),
{
    let copy = copy_attr_datas(set);
    Matcher::TokenHasAny(copy)
}

/// Match when both matchers match and reach the same index.
pub fn all(a: Matcher, b: Matcher) -> (r: Matcher)
    ensures
        r matches Matcher::All2(x, y) && *x == a && *y == b,
{
    Matcher::All2(Box::new(a), Box::new(b))
}

/// Match when all three matchers match and reach the same index.
pub fn all3(a: Matcher, b: Matcher, c: Matcher) -> (r: Matcher)
    ensures
        r matches Matcher::All3(x, y, z) && *x == a && *y == b && *z == c,
{
    Matcher::All3(Box::new(a), Box::new(b), Box::new(c))
}

/// Match what the first matcher with any match yields; later ones are not
/// consulted.
pub fn any_of(a: Matcher, b: Matcher) -> (r: Matcher)
    ensures
        r matches Matcher::AnyOf2(x, y) && *x == a && *y == b,
{
    Matcher::AnyOf2(Box::new(a), Box::new(b))
}

/// Match what the first of three matchers with any match yields.
pub fn any_of3(a: Matcher, b: Matcher, c: Matcher) -> (r: Matcher)
    ensures
        r matches Matcher::AnyOf3(x, y, z) && *x == a && *y == b && *z == c,
{
    Matcher::AnyOf3(Box::new(a), Box::new(b), Box::new(c))
}

/// Match the two matchers one after the other.
pub fn seq(a: Matcher, b: Matcher) -> (r: Matcher)
    ensures
        r matches Matcher::Seq2(x, y) && *x == a && *y == b,
{
    Matcher::Seq2(Box::new(a), Box::new(b))
}

/// Match the three matchers one after the other.
pub fn seq3(a: Matcher, b: Matcher, c: Matcher) -> (r: Matcher)
    ensures
        r matches Matcher::Seq3(x, y, z) && *x == a && *y == b && *z == c,
{
    Matcher::Seq3(Box::new(a), Box::new(b), Box::new(c))
}

/// Match a whitespace token.
pub fn whitespace() -> (r: Matcher)
    ensures
        r matches Matcher::AttrEq(d) && d@ == AttrDataV::Tag(TextTag::SPACE),
{
    Matcher::AttrEq(AttrData::Tag(TextTag::SPACE))
}

/// Element-wise copy of a part list.
pub(crate) fn copy_parts(v: &Vec<OutPart>) -> (r: Vec<OutPart>)
    ensures
        parts_view(r@) == parts_view(v@),
{
    let n = v.len();
    let mut out: Vec<OutPart> = Vec::new();
    let mut i: usize = 0;
    while i < n
        invariant
            n == v@.len(),
            i <= n,
            out@.len() == i,
            forall|q: int| 0 <= q < i ==> (#[trigger] out@[q])@ == v@[q]@,
        decreases n - i,
    {
        out.push(v[i].clone());
        i += 1;
    }
    proof {
        assert(parts_view(out@) =~= parts_view(v@));
    }
    out
}

/// Element-wise copy of an attribute-value list.
pub(crate) fn copy_attr_datas(v: &Vec<AttrData>) -> (r: Vec<AttrData>)
    ensures
        r@ == v@,
{
    let n = v.len();
    let mut out: Vec<AttrData> = Vec::new();
    let mut i: usize = 0;
    while i < n
        invariant
            n == v@.len(),
            i <= n,
            out@.len() == i,
            forall|q: int| 0 <= q < i ==> out@[q] == v@[q],
        decreases n - i,
    {
        out.push(v[i].clone());
        i += 1;
    }
    proof {
        assert(out@ =~= v@);
    }
    out
}

} // verus!
