//! The engine's stated laws, proved once and for all over the models
//! that the public contracts speak of.

use vstd::prelude::*;

use crate::attrs::{kind_of, AttrData, AttrDataV, AttrKind};
use crate::ll_line::{attrs_insert, lemma_attrs_insert_wf, seed_attrs, AttrsV, LLTokenV};
use crate::ll_selection::{find_by_spec, found_ranges, gap_pieces, hits_found_fwd, opt_to_seq,
    sel_from, split_by_pieces, split_by_spec, SelectionV};
use crate::type_id_to_many::{seq_distinct, LRange};
use crate::x::{attr_eq_hits, attr_hits, eval, probe_ranges, tag_hits, val_any_hits, val_eq_hits,
    val_hits, Direction, HitV, Matcher, OutPartV};

verus! {

/// Seeding is a function of the token sequence alone: two stores seeded
/// from the same tokens are the same store, so every query — by kind, by
/// start, by end, or by range — answers identically on both.
pub proof fn lemma_seeding_idempotent(tokens: Seq<LLTokenV>, n: nat, m1: AttrsV, m2: AttrsV)
    requires
        m1 == seed_attrs(tokens, n, n as int),
        m2 == seed_attrs(tokens, n, n as int),
    ensures
        m1 == m2,
        forall|k: AttrKind| m1.kind_ranges(k) == m2.kind_ranges(k),
        forall|k: AttrKind, r: LRange| m1.values_at(r, k) == m2.values_at(r, k),
        forall|k: AttrKind, i: int| m1.starts_ranges(i, k) == m2.starts_ranges(i, k),
        forall|k: AttrKind, i: int| m1.ends_ranges(i, k) == m2.ends_ranges(i, k),
{
}

/// Inserting two different values of one kind at one range grows that
/// range's value list by two, but leaves every index side free of
/// duplicates: the range appears at most once per kind in the global,
/// by-start and by-end lists.
pub proof fn lemma_range_dedup(
    m: AttrsV,
    n: int,
    range: LRange,
    v1: AttrDataV,
    v2: AttrDataV,
)
    requires
        m.wf(n),
        range.0 <= range.1 < n,
        kind_of(v1) == kind_of(v2),
    ensures
        ({
            let k = kind_of(v1);
            let m2 = attrs_insert(attrs_insert(m, range, v1), range, v2);
            &&& m2.values_at(range, k).len() == m.values_at(range, k).len() + 2
            &&& seq_distinct(m2.kind_ranges(k))
            &&& seq_distinct(m2.starts_ranges(range.0 as int, k))
            &&& seq_distinct(m2.ends_ranges(range.1 as int, k))
            &&& m2.kind_ranges(k).len() <= m.kind_ranges(k).len() + 1
        }),
{
    let k = kind_of(v1);
    let m1 = attrs_insert(m, range, v1);
    let m2 = attrs_insert(m1, range, v2);
    lemma_attrs_insert_wf(m, n, range, v1);
    lemma_attrs_insert_wf(m1, n, range, v2);
    lemma_wf_lists_distinct(m2, n, range.0 as int, range.1 as int, k);
    assert(m1.values_at(range, k) == m.values_at(range, k).push(v1));
    assert(m2.values_at(range, k) == m1.values_at(range, k).push(v2));
    assert(m1.kind_ranges(k).contains(range));
    assert(m2.kind_ranges(k) == m1.kind_ranges(k));
    if m.kind_ranges(k).contains(range) {
        assert(m1.kind_ranges(k) == m.kind_ranges(k));
    } else {
        assert(m1.kind_ranges(k) == m.kind_ranges(k).push(range));
    }
}

/// In a consistent store, no list of the three index sides repeats a
/// range.
proof fn lemma_wf_lists_distinct(m: AttrsV, n: int, s: int, e: int, k: AttrKind)
    requires
        m.wf(n),
        0 <= s < n,
        0 <= e < n,
    ensures
        seq_distinct(m.kind_ranges(k)),
        seq_distinct(m.starts_ranges(s, k)),
        seq_distinct(m.ends_ranges(e, k)),
{
    crate::assoc::lemma_assoc_idx_in_bounds(m.ranges, k);
    if crate::assoc::assoc_has(m.ranges, k) {
        assert(m.kind_ranges(k) == m.ranges[crate::assoc::assoc_idx(m.ranges, k)].1);
    } else {
        assert(m.kind_ranges(k) =~= Seq::<LRange>::empty());
    }
    crate::assoc::lemma_assoc_idx_in_bounds(m.starts_at[s], k);
    if crate::assoc::assoc_has(m.starts_at[s], k) {
        assert(m.starts_ranges(s, k) == m.starts_at[s][crate::assoc::assoc_idx(
            m.starts_at[s],
            k,
        )].1);
    } else {
        assert(m.starts_ranges(s, k) =~= Seq::<LRange>::empty());
    }
    crate::assoc::lemma_assoc_idx_in_bounds(m.ends_at[e], k);
    if crate::assoc::assoc_has(m.ends_at[e], k) {
        assert(m.ends_ranges(e, k) == m.ends_at[e][crate::assoc::assoc_idx(m.ends_at[e], k)].1);
    } else {
        assert(m.ends_ranges(e, k) =~= Seq::<LRange>::empty());
    }
}

/// A selection split at a matcher's single match strictly inside it
/// yields exactly two pieces: everything before the match and everything
/// after it.  Their spans together with the matched span reconstruct the
/// selection's bounds, and neither piece contains a matched token.
pub proof fn lemma_split_match_inverse(sel: SelectionV, m: Matcher)
    requires
        sel.wf(),
        find_by_spec(sel, m).len() == 1,
        find_by_spec(sel, m)[0].0.start_idx <= find_by_spec(sel, m)[0].0.end_idx,
        sel.start_idx < find_by_spec(sel, m)[0].0.start_idx,
        find_by_spec(sel, m)[0].0.end_idx < sel.end_idx,
    ensures
        ({
            let f = find_by_spec(sel, m)[0].0;
            let pieces = split_by_spec(sel, m);
            &&& pieces.len() == 2
            &&& pieces[0] == (SelectionV {
                line: sel.line,
                start_idx: sel.start_idx,
                end_idx: (f.start_idx - 1) as usize,
            })
            &&& pieces[1] == (SelectionV {
                line: sel.line,
                start_idx: (f.end_idx + 1) as usize,
                end_idx: sel.end_idx,
            })
            &&& pieces[0].end_idx + 1 == f.start_idx
            &&& f.end_idx + 1 == pieces[1].start_idx
        }),
{
    let f = find_by_spec(sel, m)[0].0;
    let rg = found_ranges(find_by_spec(sel, m));
    assert(rg.len() == 1);
    assert(rg[0] == (f.start_idx, f.end_idx));
    assert(rg[0].0 > 0);
    let head = opt_to_seq(sel_from(sel, sel.start_idx as int, rg[0].0 - 1));
    let tail = opt_to_seq(sel_from(sel, rg.last().1 + 1, sel.end_idx as int));
    assert(sel_from(sel, sel.start_idx as int, rg[0].0 - 1) == Some(
        SelectionV {
            line: sel.line,
            start_idx: sel.start_idx,
            end_idx: (f.start_idx - 1) as usize,
        },
    ));
    assert(sel_from(sel, rg.last().1 + 1, sel.end_idx as int) == Some(
        SelectionV {
            line: sel.line,
            start_idx: (f.end_idx + 1) as usize,
            end_idx: sel.end_idx,
        },
    ));
    assert(gap_pieces(sel, rg, 0) =~= Seq::<SelectionV>::empty());
    assert(split_by_pieces(sel, rg) =~= head + gap_pieces(sel, rg, 0) + tail);
    assert(split_by_spec(sel, m).len() == 2);
}

/// A matcher built only from the primitive probes.
pub open spec fn is_primitive(m: Matcher) -> bool {
    match m {
        Matcher::TokenText => true,
        Matcher::Attr(_) => true,
        Matcher::AttrEq(_) => true,
        Matcher::TokenHasAny(_) => true,
        _ => false,
    }
}

/// Membership in a value-probe hit list.
proof fn lemma_val_hits_elems(vals: Seq<AttrDataV>, to: usize)
    ensures
        val_hits(vals, to).len() == vals.len(),
        forall|q: int|
            0 <= q < vals.len() ==> (#[trigger] val_hits(vals, to)[q]) == (HitV {
                parts: seq![OutPartV::Val(vals[q])],
                to,
            }),
    decreases vals.len(),
{
    if vals.len() > 0 {
        lemma_val_hits_elems(vals.drop_last(), to);
        let f_all = val_hits(vals, to);
        let f_rest = val_hits(vals.drop_last(), to);
        assert forall|q: int| 0 <= q < vals.len() implies (#[trigger] f_all[q]) == (HitV {
            parts: seq![OutPartV::Val(vals[q])],
            to,
        }) by {
            if q < f_rest.len() {
                assert(f_all[q] == f_rest[q]);
                assert(vals.drop_last()[q] == vals[q]);
            }
        }
    }
}

/// A hit of an attribute probe comes from one probed range and one of its
/// values; conversely every such pair yields its hit.
proof fn lemma_attr_hits_member(
    line: crate::ll_line::LLLineV,
    dir: Direction,
    k: AttrKind,
    ranges: Seq<LRange>,
    hit: HitV,
)
    requires
        attr_hits(line, dir, k, ranges).contains(hit),
    ensures
        exists|ri: int, vi: int|
            #![trigger line.attrs.values_at(ranges[ri], k)[vi]]
            0 <= ri < ranges.len() && 0 <= vi < line.attrs.values_at(ranges[ri], k).len() && hit
                == (HitV {
                parts: seq![OutPartV::Val(line.attrs.values_at(ranges[ri], k)[vi])],
                to: crate::x::reach_of(dir, ranges[ri]),
            }),
    decreases ranges.len(),
{
    let f_all = attr_hits(line, dir, k, ranges);
    let q = choose|q: int| 0 <= q < f_all.len() && f_all[q] == hit;
    let f_rest = attr_hits(line, dir, k, ranges.drop_last());
    let g = val_hits(line.attrs.values_at(ranges.last(), k), reach_of_local(dir, ranges.last()));
    if q < f_rest.len() {
        assert(f_rest[q] == hit);
        assert(f_rest.contains(hit));
        lemma_attr_hits_member(line, dir, k, ranges.drop_last(), hit);
        let (ri, vi) = choose|ri: int, vi: int|
            #![trigger line.attrs.values_at(ranges.drop_last()[ri], k)[vi]]
            0 <= ri < ranges.drop_last().len() && 0 <= vi < line.attrs.values_at(
                ranges.drop_last()[ri],
                k,
            ).len() && hit == (HitV {
                parts: seq![OutPartV::Val(line.attrs.values_at(ranges.drop_last()[ri], k)[vi])],
                to: crate::x::reach_of(dir, ranges.drop_last()[ri]),
            });
        assert(ranges.drop_last()[ri] == ranges[ri]);
    } else {
        assert(f_all[q] == g[q - f_rest.len()]);
        lemma_val_hits_elems(
            line.attrs.values_at(ranges.last(), k),
            reach_of_local(dir, ranges.last()),
        );
        let vi = q - f_rest.len();
        assert(ranges[ranges.len() - 1] == ranges.last());
        assert(hit == (HitV {
            parts: seq![OutPartV::Val(line.attrs.values_at(ranges.last(), k)[vi])],
            to: crate::x::reach_of(dir, ranges.last()),
        }));
    }
}

/// A named copy of the reach, so the lemma bodies can mention it.
pub open spec fn reach_of_local(dir: Direction, r: LRange) -> usize {
    crate::x::reach_of(dir, r)
}

/// Every value of a probed range appears among the probe's hits.
proof fn lemma_attr_hits_complete(
    line: crate::ll_line::LLLineV,
    dir: Direction,
    k: AttrKind,
    ranges: Seq<LRange>,
    ri: int,
    vi: int,
)
    requires
        0 <= ri < ranges.len(),
        0 <= vi < line.attrs.values_at(ranges[ri], k).len(),
    ensures
        attr_hits(line, dir, k, ranges).contains(
            HitV {
                parts: seq![OutPartV::Val(line.attrs.values_at(ranges[ri], k)[vi])],
                to: crate::x::reach_of(dir, ranges[ri]),
            },
        ),
    decreases ranges.len(),
{
    let f_all = attr_hits(line, dir, k, ranges);
    let f_rest = attr_hits(line, dir, k, ranges.drop_last());
    let g = val_hits(line.attrs.values_at(ranges.last(), k), reach_of_local(dir, ranges.last()));
    let hit = HitV {
        parts: seq![OutPartV::Val(line.attrs.values_at(ranges[ri], k)[vi])],
        to: crate::x::reach_of(dir, ranges[ri]),
    };
    if ri < ranges.len() - 1 {
        assert(ranges.drop_last()[ri] == ranges[ri]);
        lemma_attr_hits_complete(line, dir, k, ranges.drop_last(), ri, vi);
        let q = choose|q: int| 0 <= q < f_rest.len() && f_rest[q] == hit;
        assert(f_all[q] == hit);
        assert(f_all.contains(hit));
    } else {
        assert(ranges[ri] == ranges.last());
        lemma_val_hits_elems(
            line.attrs.values_at(ranges.last(), k),
            reach_of_local(dir, ranges.last()),
        );
        assert(g[vi] == hit);
        assert(f_all[f_rest.len() + vi] == hit);
        assert(f_all.contains(hit));
    }
}

/// Direction symmetry of the primitive probes: whenever a primitive
/// matcher, probing forwards from `a`, matches and reaches `b`, the same
/// matcher probing backwards from `b` matches with the same captured
/// parts and reaches `a`.
///
/// The priority choice and the sequence combinators do not enjoy this
/// symmetry: a choice may be decided by a different branch on the other
/// side, and a sequence meets its components in the opposite spatial
/// order.
pub proof fn lemma_direction_symmetry(
    line: crate::ll_line::LLLineV,
    m: Matcher,
    a: usize,
    hit: HitV,
)
    requires
        line.wf(),
        is_primitive(m),
        a < line.tokens.len(),
        eval(m, line, Direction::Forwards, a).contains(hit),
    ensures
        hit.to < line.tokens.len(),
        eval(m, line, Direction::Backwards, hit.to).contains(
            HitV { parts: hit.parts, to: a },
        ),
{
    crate::x::lemma_eval_in_bounds(m, line, Direction::Forwards, a);
    let rs = eval(m, line, Direction::Forwards, a);
    let q0 = choose|q: int| 0 <= q < rs.len() && rs[q] == hit;
    assert(hit.to < line.tokens.len());
    match m {
        Matcher::TokenText => {
            assert(hit.to == a);
            assert(eval(m, line, Direction::Backwards, a) == rs);
        },
        Matcher::Attr(k) => {
            let fwd_ranges = probe_ranges(line, Direction::Forwards, a as int, k);
            lemma_attr_hits_member(line, Direction::Forwards, k, fwd_ranges, hit);
            let (ri, vi) = choose|ri: int, vi: int|
                #![trigger line.attrs.values_at(fwd_ranges[ri], k)[vi]]
                0 <= ri < fwd_ranges.len() && 0 <= vi < line.attrs.values_at(
                    fwd_ranges[ri],
                    k,
                ).len() && hit == (HitV {
                    parts: seq![OutPartV::Val(line.attrs.values_at(fwd_ranges[ri], k)[vi])],
                    to: crate::x::reach_of(Direction::Forwards, fwd_ranges[ri]),
                });
            let r = fwd_ranges[ri];
            assert(line.attrs.starts_ranges(a as int, k).contains(r));
            assert(r.0 == a && line.attrs.values_at(r, k).len() > 0);
            assert(line.attrs.kind_ranges(k).contains(r));
            assert(r.0 <= r.1 < line.tokens.len());
            assert(hit.to == r.1);
            let bwd_ranges = probe_ranges(line, Direction::Backwards, r.1 as int, k);
            assert(line.attrs.ends_ranges(r.1 as int, k).contains(r));
            let bi = choose|bi: int| 0 <= bi < bwd_ranges.len() && bwd_ranges[bi] == r;
            lemma_attr_hits_complete(line, Direction::Backwards, k, bwd_ranges, bi, vi);
            assert(crate::x::reach_of(Direction::Backwards, r) == r.0);
            assert(hit.parts == seq![OutPartV::Val(line.attrs.values_at(r, k)[vi])]);
        },
        Matcher::AttrEq(eq) => {
            let ev = eq@;
            let k = kind_of(ev);
            let fwd_ranges = probe_ranges(line, Direction::Forwards, a as int, k);
            lemma_attr_eq_hits_member(line, Direction::Forwards, ev, fwd_ranges, hit);
            let ri = choose|ri: int|
                0 <= ri < fwd_ranges.len() && hit == (HitV {
                    parts: seq![OutPartV::Unit],
                    to: crate::x::reach_of(Direction::Forwards, #[trigger] fwd_ranges[ri]),
                }) && line.attrs.values_at(fwd_ranges[ri], k).contains(ev);
            let r = fwd_ranges[ri];
            assert(line.attrs.starts_ranges(a as int, k).contains(r));
            assert(r.0 == a && line.attrs.values_at(r, k).len() > 0);
            assert(line.attrs.kind_ranges(k).contains(r));
            assert(r.0 <= r.1 < line.tokens.len());
            assert(hit.to == r.1);
            let bwd_ranges = probe_ranges(line, Direction::Backwards, r.1 as int, k);
            assert(line.attrs.ends_ranges(r.1 as int, k).contains(r));
            let bi = choose|bi: int| 0 <= bi < bwd_ranges.len() && bwd_ranges[bi] == r;
            lemma_attr_eq_hits_complete(line, Direction::Backwards, ev, bwd_ranges, bi);
            assert(crate::x::reach_of(Direction::Backwards, r) == r.0);
            assert(hit.parts == seq![OutPartV::Unit]);
        },
        Matcher::TokenHasAny(set) => {
            assert(hit.to == a) by {
                if set@.len() > 0 {
                    crate::x::lemma_val_any_hits_to(
                        line.attrs.values_at((a, a), kind_of(set@[0]@)),
                        set@,
                        a,
                    );
                }
            }
            assert(eval(m, line, Direction::Backwards, a) == rs);
        },
        _ => {},
    }
}

/// Membership in an equality-probe hit list.
proof fn lemma_val_eq_hits_member(vals: Seq<AttrDataV>, eq: AttrDataV, to: usize, hit: HitV)
    requires
        val_eq_hits(vals, eq, to).contains(hit),
    ensures
        hit == (HitV { parts: seq![OutPartV::Unit], to }),
        exists|vi: int| 0 <= vi < vals.len() && vals[vi] == eq,
    decreases vals.len(),
{
    let f_all = val_eq_hits(vals, eq, to);
    let q = choose|q: int| 0 <= q < f_all.len() && f_all[q] == hit;
    let f_rest = val_eq_hits(vals.drop_last(), eq, to);
    if q < f_rest.len() {
        assert(f_rest[q] == hit);
        assert(f_rest.contains(hit));
        lemma_val_eq_hits_member(vals.drop_last(), eq, to, hit);
        let vi = choose|vi: int| 0 <= vi < vals.drop_last().len() && vals.drop_last()[vi] == eq;
        assert(vals[vi] == eq);
    } else {
        assert(vals.last() == eq);
        assert(vals[vals.len() - 1] == eq);
    }
}

/// An equal value among the probed values yields the witness hit.
proof fn lemma_val_eq_hits_complete(vals: Seq<AttrDataV>, eq: AttrDataV, to: usize, vi: int)
    requires
        0 <= vi < vals.len(),
        vals[vi] == eq,
    ensures
        val_eq_hits(vals, eq, to).contains(HitV { parts: seq![OutPartV::Unit], to }),
    decreases vals.len(),
{
    let f_all = val_eq_hits(vals, eq, to);
    let f_rest = val_eq_hits(vals.drop_last(), eq, to);
    if vi < vals.len() - 1 {
        assert(vals.drop_last()[vi] == eq);
        lemma_val_eq_hits_complete(vals.drop_last(), eq, to, vi);
        let q = choose|q: int|
            0 <= q < f_rest.len() && f_rest[q] == (HitV { parts: seq![OutPartV::Unit], to });
        assert(f_all[q] == (HitV { parts: seq![OutPartV::Unit], to }));
        assert(f_all.contains(HitV { parts: seq![OutPartV::Unit], to }));
    } else {
        assert(vals.last() == eq);
        assert(f_all.last() == (HitV { parts: seq![OutPartV::Unit], to }));
        assert(f_all[f_all.len() - 1] == (HitV { parts: seq![OutPartV::Unit], to }));
        assert(f_all.contains(HitV { parts: seq![OutPartV::Unit], to }));
    }
}

/// Membership in an equality probe over ranges.
proof fn lemma_attr_eq_hits_member(
    line: crate::ll_line::LLLineV,
    dir: Direction,
    eq: AttrDataV,
    ranges: Seq<LRange>,
    hit: HitV,
)
    requires
        attr_eq_hits(line, dir, eq, ranges).contains(hit),
    ensures
        exists|ri: int|
            0 <= ri < ranges.len() && hit == (HitV {
                parts: seq![OutPartV::Unit],
                to: crate::x::reach_of(dir, #[trigger] ranges[ri]),
            }) && line.attrs.values_at(ranges[ri], kind_of(eq)).contains(eq),
    decreases ranges.len(),
{
    let f_all = attr_eq_hits(line, dir, eq, ranges);
    let q = choose|q: int| 0 <= q < f_all.len() && f_all[q] == hit;
    let f_rest = attr_eq_hits(line, dir, eq, ranges.drop_last());
    let g = val_eq_hits(
        line.attrs.values_at(ranges.last(), kind_of(eq)),
        eq,
        reach_of_local(dir, ranges.last()),
    );
    if q < f_rest.len() {
        assert(f_rest[q] == hit);
        assert(f_rest.contains(hit));
        lemma_attr_eq_hits_member(line, dir, eq, ranges.drop_last(), hit);
        let ri = choose|ri: int|
            0 <= ri < ranges.drop_last().len() && hit == (HitV {
                parts: seq![OutPartV::Unit],
                to: crate::x::reach_of(dir, #[trigger] ranges.drop_last()[ri]),
            }) && line.attrs.values_at(ranges.drop_last()[ri], kind_of(eq)).contains(eq);
        assert(ranges.drop_last()[ri] == ranges[ri]);
    } else {
        assert(f_all[q] == g[q - f_rest.len()]);
        assert(g.contains(hit));
        lemma_val_eq_hits_member(
            line.attrs.values_at(ranges.last(), kind_of(eq)),
            eq,
            reach_of_local(dir, ranges.last()),
            hit,
        );
        let vi = choose|vi: int|
            0 <= vi < line.attrs.values_at(ranges.last(), kind_of(eq)).len()
                && line.attrs.values_at(ranges.last(), kind_of(eq))[vi] == eq;
        assert(ranges[ranges.len() - 1] == ranges.last());
        assert(line.attrs.values_at(ranges.last(), kind_of(eq)).contains(eq));
    }
}

/// An equal value at a probed range yields its witness hit.
proof fn lemma_attr_eq_hits_complete(
    line: crate::ll_line::LLLineV,
    dir: Direction,
    eq: AttrDataV,
    ranges: Seq<LRange>,
    ri: int,
)
    requires
        0 <= ri < ranges.len(),
        line.attrs.values_at(ranges[ri], kind_of(eq)).contains(eq),
    ensures
        attr_eq_hits(line, dir, eq, ranges).contains(
            HitV { parts: seq![OutPartV::Unit], to: crate::x::reach_of(dir, ranges[ri]) },
        ),
    decreases ranges.len(),
{
    let f_all = attr_eq_hits(line, dir, eq, ranges);
    let f_rest = attr_eq_hits(line, dir, eq, ranges.drop_last());
    let hit = HitV { parts: seq![OutPartV::Unit], to: crate::x::reach_of(dir, ranges[ri]) };
    if ri < ranges.len() - 1 {
        assert(ranges.drop_last()[ri] == ranges[ri]);
        lemma_attr_eq_hits_complete(line, dir, eq, ranges.drop_last(), ri);
        let q = choose|q: int| 0 <= q < f_rest.len() && f_rest[q] == hit;
        assert(f_all[q] == hit);
        assert(f_all.contains(hit));
    } else {
        assert(ranges[ri] == ranges.last());
        let vals = line.attrs.values_at(ranges.last(), kind_of(eq));
        let vi = choose|vi: int| 0 <= vi < vals.len() && vals[vi] == eq;
        lemma_val_eq_hits_complete(vals, eq, reach_of_local(dir, ranges.last()), vi);
        let g = val_eq_hits(vals, eq, reach_of_local(dir, ranges.last()));
        let q = choose|q: int| 0 <= q < g.len() && g[q] == hit;
        assert(f_all[f_rest.len() + q] == hit);
        assert(f_all.contains(hit));
    }
}

/// The priority choice is a short circuit: the first branch with any
/// match wins outright, and the other branch's matches are not consulted;
/// with the first branch silent, the second branch's matches appear.
pub proof fn lemma_any_of_short_circuit(
    line: crate::ll_line::LLLineV,
    a: Matcher,
    b: Matcher,
    dir: Direction,
    at: usize,
)
    ensures
        eval(a, line, dir, at).len() > 0 ==> eval(
            Matcher::AnyOf2(Box::new(a), Box::new(b)),
            line,
            dir,
            at,
        ) == tag_hits(eval(a, line, dir, at), 0),
        eval(a, line, dir, at).len() == 0 ==> eval(
            Matcher::AnyOf2(Box::new(a), Box::new(b)),
            line,
            dir,
            at,
        ) == tag_hits(eval(b, line, dir, at), 1),
{
}


/// Strictly ascending token indices.
pub open spec fn strictly_sorted(ks: Seq<usize>) -> bool {
    forall|a: int, b: int| 0 <= a < b < ks.len() ==> ks[a] < ks[b]
}

/// How many of the (sorted) indices lie strictly below `b`.
pub open spec fn count_below(ks: Seq<usize>, b: int) -> int
    decreases ks.len(),
{
    if ks.len() == 0 {
        0
    } else if ks.last() < b {
        ks.len() as int
    } else {
        count_below(ks.drop_last(), b)
    }
}

/// Under strict sortedness, the count cuts the sequence exactly: the
/// indices below `b` are precisely the first `count_below` ones.
pub proof fn lemma_count_below(ks: Seq<usize>, b: int)
    requires
        strictly_sorted(ks),
    ensures
        0 <= count_below(ks, b) <= ks.len(),
        forall|j: int| 0 <= j < ks.len() ==> (j < count_below(ks, b) <==> (#[trigger] ks[j]) < b),
    decreases ks.len(),
{
    if ks.len() > 0 {
        let dl = ks.drop_last();
        assert(strictly_sorted(dl)) by {
            assert forall|a: int, c: int| 0 <= a < c < dl.len() implies dl[a] < dl[c] by {
                assert(dl[a] == ks[a]);
                assert(dl[c] == ks[c]);
            }
        }
        lemma_count_below(dl, b);
        if ks.last() < b {
            assert forall|j: int| 0 <= j < ks.len() implies (j < count_below(ks, b) <==> (
            #[trigger] ks[j]) < b) by {
                if j < ks.len() - 1 {
                    assert(ks[j] < ks[ks.len() - 1]);
                }
            }
        } else {
            assert forall|j: int| 0 <= j < ks.len() implies (j < count_below(ks, b) <==> (
            #[trigger] ks[j]) < b) by {
                if j < ks.len() - 1 {
                    assert(dl[j] == ks[j]);
                } else {
                    assert(count_below(ks, b) <= dl.len());
                }
            }
        }
    }
}

/// Passing one boundary adds exactly the index sitting there, if any.
pub proof fn lemma_count_below_step(ks: Seq<usize>, b: int)
    requires
        strictly_sorted(ks),
    ensures
        (exists|j: int| 0 <= j < ks.len() && (#[trigger] ks[j]) == b) ==> (count_below(ks, b + 1)
            == count_below(ks, b) + 1 && ks[count_below(ks, b)] == b),
        !(exists|j: int| 0 <= j < ks.len() && (#[trigger] ks[j]) == b) ==> count_below(ks, b + 1)
            == count_below(ks, b),
{
    lemma_count_below(ks, b);
    lemma_count_below(ks, b + 1);
    let c = count_below(ks, b);
    let c1 = count_below(ks, b + 1);
    assert(c <= c1) by {
        if c1 < c {
            assert(ks[c1] < b);
            assert(ks[c1] < b + 1);
        }
    }
    if exists|j: int| 0 <= j < ks.len() && (#[trigger] ks[j]) == b {
        let j = choose|j: int| 0 <= j < ks.len() && (#[trigger] ks[j]) == b;
        assert(ks[j] < b + 1);
        assert(j < c1);
        assert(!(ks[j] < b));
        assert(j >= c);
        assert(c1 >= c + 1);
        if c1 > c + 1 {
            assert(ks[c] < b + 1 && ks[c + 1] < b + 1);
            assert(!(ks[c] < b) && !(ks[c + 1] < b));
            assert(ks[c] == b && ks[c + 1] == b);
            assert(false);
        }
        assert(ks[c] < b + 1 && !(ks[c] < b));
    } else {
        if c1 > c {
            assert(ks[c] < b + 1 && !(ks[c] < b));
            assert(ks[c] == b);
            assert(false);
        }
    }
}

/// The keyword-line hypothesis: the store carries values of kind `k`
/// exactly on the single-token ranges of the listed indices, one value
/// each, and every listed index lies inside the selection.
pub open spec fn keyword_line(sel: SelectionV, k: AttrKind, ks: Seq<usize>) -> bool {
    &&& strictly_sorted(ks)
    &&& forall|j: int|
        0 <= j < ks.len() ==> sel.start_idx <= #[trigger] ks[j] <= sel.end_idx
    &&& forall|r: LRange|
        #![trigger sel.line.attrs.values_at(r, k)]
        sel.line.attrs.values_at(r, k).len() > 0 <==> (exists|j: int|
            0 <= j < ks.len() && r == ((#[trigger] ks[j]), ks[j]))
    &&& forall|j: int|
        0 <= j < ks.len() ==> sel.line.attrs.values_at(
            ((#[trigger] ks[j]), ks[j]),
            k,
        ).len() == 1
}

/// On a keyword line, probing kind `k` forward at boundary `i` yields one
/// hit spanning `[i, i]` when `i` is a keyword index, and nothing
/// otherwise.
proof fn lemma_keyword_eval_at(sel: SelectionV, k: AttrKind, ks: Seq<usize>, i: usize)
    requires
        sel.wf(),
        keyword_line(sel, k, ks),
        sel.start_idx <= i <= sel.end_idx,
    ensures
        (exists|j: int| 0 <= j < ks.len() && (#[trigger] ks[j]) == i) ==> hits_found_fwd(
            sel.line,
            i,
            eval(Matcher::Attr(k), sel.line, Direction::Forwards, i),
        ).len() == 1 && hits_found_fwd(
            sel.line,
            i,
            eval(Matcher::Attr(k), sel.line, Direction::Forwards, i),
        )[0].0 == (SelectionV { line: sel.line, start_idx: i, end_idx: i }),
        !(exists|j: int| 0 <= j < ks.len() && (#[trigger] ks[j]) == i) ==> hits_found_fwd(
            sel.line,
            i,
            eval(Matcher::Attr(k), sel.line, Direction::Forwards, i),
        ) == Seq::<(SelectionV, Seq<OutPartV>)>::empty(),
{
    let line = sel.line;
    let sr = line.attrs.starts_ranges(i as int, k);
    lemma_wf_lists_distinct(line.attrs, line.tokens.len() as int, i as int, i as int, k);
    assert forall|q: int| 0 <= q < sr.len() implies #[trigger] sr[q] == ((i, i)) && (exists|j: int|
        0 <= j < ks.len() && (#[trigger] ks[j]) == i) by {
        let r = sr[q];
        assert(sr.contains(r));
        assert(line.attrs.starts_ranges(i as int, k).contains(r));
        assert(r.0 == i && line.attrs.values_at(r, k).len() > 0);
        let j = choose|j: int| 0 <= j < ks.len() && r == ((#[trigger] ks[j]), ks[j]);
        assert(r == (i, i));
    }
    if exists|j: int| 0 <= j < ks.len() && (#[trigger] ks[j]) == i {
        let j = choose|j: int| 0 <= j < ks.len() && (#[trigger] ks[j]) == i;
        assert(line.attrs.values_at((i, i), k).len() == 1);
        assert(line.attrs.starts_ranges(i as int, k).contains((i, i)));
        assert(sr.contains((i, i)));
        let q0 = choose|q: int| 0 <= q < sr.len() && sr[q] == ((i, i));
        if sr.len() > 1 {
            assert(sr[0] == ((i, i)) && sr[1] == ((i, i)));
            assert(false);
        }
        assert(sr =~= seq![(i, i)]);
        let vals = line.attrs.values_at((i, i), k);
        assert(eval(Matcher::Attr(k), line, Direction::Forwards, i) == attr_hits(
            line,
            Direction::Forwards,
            k,
            sr,
        ));
        assert(sr.drop_last() =~= Seq::<LRange>::empty());
        assert(attr_hits(line, Direction::Forwards, k, sr.drop_last()) =~= Seq::<
            crate::x::HitV,
        >::empty());
        assert(sr.last() == ((i, i)));
        assert(crate::x::reach_of(Direction::Forwards, (i, i)) == i);
        assert(attr_hits(line, Direction::Forwards, k, sr) =~~= val_hits(vals, i));
        lemma_val_hits_elems(vals, i);
        let hits = eval(Matcher::Attr(k), line, Direction::Forwards, i);
        assert(hits.len() == 1);
        assert(hits.drop_last() =~= Seq::<crate::x::HitV>::empty());
        assert(hits_found_fwd(line, i, hits.drop_last()) =~= Seq::<(SelectionV, Seq<
            OutPartV,
        >)>::empty());
        assert(hits_found_fwd(line, i, hits).len() == 1);
        assert(hits_found_fwd(line, i, hits)[0].0 == (SelectionV {
            line,
            start_idx: i,
            end_idx: hits.last().to,
        }));
        assert(hits.last().to == i);
    } else {
        if sr.len() > 0 {
            assert(sr[0] == ((i, i)));
            assert(false);
        }
        assert(sr =~= Seq::<LRange>::empty());
        assert(eval(Matcher::Attr(k), line, Direction::Forwards, i) =~= Seq::<
            crate::x::HitV,
        >::empty());
        assert(hits_found_fwd(
            sel.line,
            i,
            eval(Matcher::Attr(k), sel.line, Direction::Forwards, i),
        ) =~= Seq::<(SelectionV, Seq<OutPartV>)>::empty());
    }
}

/// On a keyword line, the matches found inside `[start, upto)` are the
/// single-token keyword spans in ascending order.
proof fn lemma_keyword_find_upto(sel: SelectionV, k: AttrKind, ks: Seq<usize>, upto: int)
    requires
        sel.wf(),
        keyword_line(sel, k, ks),
        sel.start_idx <= upto <= sel.end_idx + 1,
    ensures
        found_ranges(
            crate::ll_selection::find_by_upto(sel.line, Matcher::Attr(k), sel.start_idx, upto),
        ) =~= Seq::new(
            count_below(ks, upto) as nat,
            |j: int| ((ks[j], ks[j])),
        ),
    decreases upto - sel.start_idx,
{
    lemma_count_below(ks, upto);
    if upto <= sel.start_idx {
        assert(count_below(ks, upto) == 0) by {
            if count_below(ks, upto) > 0 {
                assert(ks[0] < upto);
                assert(ks[0] >= sel.start_idx);
            }
        }
    } else {
        let i = (upto - 1) as usize;
        lemma_keyword_find_upto(sel, k, ks, upto - 1);
        lemma_keyword_eval_at(sel, k, ks, i);
        lemma_count_below(ks, upto - 1);
        lemma_count_below_step(ks, upto - 1);
        let prev = crate::ll_selection::find_by_upto(
            sel.line,
            Matcher::Attr(k),
            sel.start_idx,
            upto - 1,
        );
        let step = hits_found_fwd(
            sel.line,
            i,
            eval(Matcher::Attr(k), sel.line, Direction::Forwards, i),
        );
        assert(crate::ll_selection::find_by_upto(sel.line, Matcher::Attr(k), sel.start_idx, upto)
            == prev + step);
        assert(found_ranges(prev + step) =~= found_ranges(prev) + found_ranges(step));
        if exists|j: int| 0 <= j < ks.len() && (#[trigger] ks[j]) == i as int {
            assert(found_ranges(step) =~= seq![(i, i)]);
        } else {
            assert(found_ranges(step) =~= Seq::<LRange>::empty());
        }
    }
}

/// Splitting a keyword-tagged line: the matcher finds exactly the
/// single-token keyword spans, in ascending order, so the split leaves
/// the non-empty gaps around and between them, left to right — and no
/// returned piece contains a keyword token.
pub proof fn lemma_clause_split(sel: SelectionV, k: AttrKind, ks: Seq<usize>)
    requires
        sel.wf(),
        keyword_line(sel, k, ks),
    ensures
        found_ranges(find_by_spec(sel, Matcher::Attr(k))) =~= Seq::new(
            ks.len(),
            |j: int| ((ks[j], ks[j])),
        ),
        split_by_spec(sel, Matcher::Attr(k)) == split_by_pieces(
            sel,
            Seq::new(ks.len(), |j: int| ((ks[j], ks[j]))),
        ),
        forall|p: int, j: int|
            0 <= p < split_by_spec(sel, Matcher::Attr(k)).len() && 0 <= j < ks.len()
                ==> !((#[trigger] split_by_spec(sel, Matcher::Attr(k))[p]).start_idx <= (
            #[trigger] ks[j]) <= split_by_spec(sel, Matcher::Attr(k))[p].end_idx),
{
    lemma_keyword_find_upto(sel, k, ks, sel.end_idx + 1);
    lemma_count_below(ks, sel.end_idx + 1);
    assert(count_below(ks, sel.end_idx + 1) == ks.len()) by {
        if count_below(ks, sel.end_idx + 1) < ks.len() {
            assert(!(ks[count_below(ks, sel.end_idx + 1)] < sel.end_idx + 1));
        }
    }
    let rg = found_ranges(find_by_spec(sel, Matcher::Attr(k)));
    let rgm = Seq::new(ks.len(), |j: int| ((ks[j], ks[j])));
    assert(rg =~= rgm);
    assert(split_by_spec(sel, Matcher::Attr(k)) == split_by_pieces(sel, rg));
    lemma_keyword_pieces_free(sel, ks, rgm);
}

/// No piece of the keyword split contains a keyword token.
proof fn lemma_keyword_pieces_free(sel: SelectionV, ks: Seq<usize>, rg: Seq<LRange>)
    requires
        sel.wf(),
        strictly_sorted(ks),
        rg == Seq::new(ks.len(), |j: int| ((ks[j], ks[j]))),
    ensures
        forall|p: int, j: int|
            0 <= p < split_by_pieces(sel, rg).len() && 0 <= j < ks.len() ==> !((
            #[trigger] split_by_pieces(sel, rg)[p]).start_idx <= (#[trigger] ks[j])
                <= split_by_pieces(sel, rg)[p].end_idx),
{
    let pieces = split_by_pieces(sel, rg);
    if rg.len() == 0 {
        assert(pieces =~= seq![sel]);
    } else {
        let head = if rg[0].0 > 0 {
            opt_to_seq(sel_from(sel, sel.start_idx as int, rg[0].0 - 1))
        } else {
            Seq::<SelectionV>::empty()
        };
        let mid = gap_pieces(sel, rg, rg.len() - 1);
        let tail = opt_to_seq(sel_from(sel, rg.last().1 + 1, sel.end_idx as int));
        assert(pieces == head + mid + tail);
        assert forall|p: int, j: int|
            0 <= p < head.len() && 0 <= j < ks.len() implies !((#[trigger] head[p]).start_idx <= (
        #[trigger] ks[j]) <= head[p].end_idx) by {
            assert(head[p].end_idx < rg[0].0);
            assert(rg[0] == ((ks[0], ks[0])));
            if j > 0 {
                assert(ks[0] < ks[j]);
            }
        }
        lemma_gap_pieces_free(sel, ks, rg, rg.len() - 1);
        assert forall|p: int, j: int|
            0 <= p < tail.len() && 0 <= j < ks.len() implies !((#[trigger] tail[p]).start_idx <= (
        #[trigger] ks[j]) <= tail[p].end_idx) by {
            assert(rg.last() == rg[rg.len() - 1]);
            assert(tail[p].start_idx > ks[ks.len() - 1]);
            if j < ks.len() - 1 {
                assert(ks[j] < ks[ks.len() - 1]);
            }
        }
        assert forall|p: int, j: int|
            0 <= p < pieces.len() && 0 <= j < ks.len() implies !((
        #[trigger] pieces[p]).start_idx <= (#[trigger] ks[j]) <= pieces[p].end_idx) by {
            if p < head.len() {
                assert(pieces[p] == head[p]);
            } else if p < head.len() + mid.len() {
                assert(pieces[p] == mid[p - head.len()]);
            } else {
                assert(pieces[p] == tail[p - head.len() - mid.len()]);
            }
        }
    }
}

/// No gap piece between consecutive keyword spans contains any keyword
/// token.
proof fn lemma_gap_pieces_free(sel: SelectionV, ks: Seq<usize>, rg: Seq<LRange>, w: int)
    requires
        sel.wf(),
        strictly_sorted(ks),
        rg == Seq::new(ks.len(), |j: int| ((ks[j], ks[j]))),
        w < rg.len(),
    ensures
        forall|p: int, j: int|
            0 <= p < gap_pieces(sel, rg, w).len() && 0 <= j < ks.len() ==> !((
            #[trigger] gap_pieces(sel, rg, w)[p]).start_idx <= (#[trigger] ks[j]) <= gap_pieces(
                sel,
                rg,
                w,
            )[p].end_idx),
    decreases w,
{
    if w >= 1 {
        lemma_gap_pieces_free(sel, ks, rg, w - 1);
        let prev = gap_pieces(sel, rg, w - 1);
        let newp = (if rg[w].0 > 0 {
            opt_to_seq(sel_from(sel, rg[w - 1].1 + 1, rg[w].0 - 1))
        } else {
            Seq::<SelectionV>::empty()
        });
        assert(gap_pieces(sel, rg, w) == prev + newp);
        assert forall|p: int, j: int|
            0 <= p < newp.len() && 0 <= j < ks.len() implies !((#[trigger] newp[p]).start_idx <= (
        #[trigger] ks[j]) <= newp[p].end_idx) by {
            assert(newp[p].start_idx > ks[w - 1]);
            assert(newp[p].end_idx < ks[w]);
            if j <= w - 1 {
                if j < w - 1 {
                    assert(ks[j] < ks[w - 1]);
                }
            } else {
                if j > w {
                    assert(ks[w] < ks[j]);
                }
            }
        }
        assert forall|p: int, j: int|
            0 <= p < gap_pieces(sel, rg, w).len() && 0 <= j < ks.len() implies !((
        #[trigger] gap_pieces(sel, rg, w)[p]).start_idx <= (#[trigger] ks[j]) <= gap_pieces(
            sel,
            rg,
            w,
        )[p].end_idx) by {
            if p < prev.len() {
                assert(gap_pieces(sel, rg, w)[p] == prev[p]);
            } else {
                assert(gap_pieces(sel, rg, w)[p] == newp[p - prev.len()]);
            }
        }
    }
}

} // verus!
