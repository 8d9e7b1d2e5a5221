//! The token line and its multi-indexed attribute store.
//!
//! An [`LLLine`] is an immutable ordered sequence of tokens plus an
//! append-only attribute index.  The index keeps three sides consistent:
//! a global by-kind range list, a by-start-token list, a by-end-token
//! list, and the per-range value buckets.

use vstd::prelude::*;

use std::rc::Rc;

use crate::assoc::{assoc_distinct, assoc_get, assoc_has, assoc_idx, lemma_assoc_idx_first,
    lemma_assoc_idx_in_bounds, lemma_assoc_push, lemma_assoc_update};
use crate::attrs::{kind_of, AttrData, AttrDataV, AttrKind, TextTag};
use crate::type_bucket::{bucket_insert, bucket_wf, AnyAttribute, BucketV, TypeBucket};
use crate::type_id_to_many::{ranges_map_insert, ranges_map_wf, seq_distinct, LRange, RangesMapV,
    TypeIdToMany};

verus! {

/// One token's content: a text unit with its lexical tag, or an opaque
/// placeholder standing in for externally supplied content.
#[derive(Debug)]
pub enum LToken {
    Text(String, TextTag),
    Value,
}

/// Mathematical model of an [`LToken`].
pub enum LTokenV {
    Text(Seq<char>, TextTag),
    Value,
}

impl View for LToken {
    type V = LTokenV;

    open spec fn view(&self) -> LTokenV {
        match self {
            LToken::Text(s, tag) => LTokenV::Text(s@, *tag),
            LToken::Value => LTokenV::Value,
        }
    }
}

/// One token of a line: its dense index, its half-open position range in
/// caller-defined units, and its content.
#[derive(Debug)]
pub struct LLToken {
    pub token_idx: usize,
    // token span position (not token index)
    pub pos_starts_at: usize,
    // token span position (not token index)
    pub pos_ends_at: usize,
    pub token: LToken,
}

/// Mathematical model of an [`LLToken`].
#[verifier::ext_equal]
pub struct LLTokenV {
    pub token_idx: usize,
    pub pos_starts_at: usize,
    pub pos_ends_at: usize,
    pub token: LTokenV,
}

impl View for LLToken {
    type V = LLTokenV;

    open spec fn view(&self) -> LLTokenV {
        LLTokenV {
            token_idx: self.token_idx,
            pos_starts_at: self.pos_starts_at,
            pos_ends_at: self.pos_ends_at,
            token: self.token@,
        }
    }
}

/// The lift of a token list to its model.
pub open spec fn tokens_view(v: Seq<LLToken>) -> Seq<LLTokenV> {
    Seq::new(v.len(), |i: int| v[i]@)
}

/// The lift of a list of index sides to its model.
pub open spec fn tims_view(v: Seq<TypeIdToMany>) -> Seq<RangesMapV> {
    Seq::new(v.len(), |i: int| v[i]@)
}

/// Model of the whole attribute store.
#[verifier::ext_equal]
pub struct AttrsV {
    /// by kind: every range holding a value of that kind
    pub ranges: RangesMapV,
    /// by first token index: the ranges starting there, per kind
    pub starts_at: Seq<RangesMapV>,
    /// by last token index: the ranges ending there, per kind
    pub ends_at: Seq<RangesMapV>,
    /// by range: every value attached to it, grouped by kind
    pub values: Seq<(LRange, BucketV)>,
}

impl AttrsV {
    /// Ranges holding at least one value of kind `k`, in first-insertion
    /// order.
    pub open spec fn kind_ranges(self, k: AttrKind) -> Seq<LRange> {
        assoc_get(self.ranges, k, Seq::empty())
    }

    /// Ranges of kind `k` starting exactly at token `i`.
    pub open spec fn starts_ranges(self, i: int, k: AttrKind) -> Seq<LRange> {
        if 0 <= i < self.starts_at.len() {
            assoc_get(self.starts_at[i], k, Seq::empty())
        } else {
            Seq::empty()
        }
    }

    /// Ranges of kind `k` ending exactly at token `i`.
    pub open spec fn ends_ranges(self, i: int, k: AttrKind) -> Seq<LRange> {
        if 0 <= i < self.ends_at.len() {
            assoc_get(self.ends_at[i], k, Seq::empty())
        } else {
            Seq::empty()
        }
    }

    /// The bucket attached to `r`.
    pub open spec fn bucket_at(self, r: LRange) -> BucketV {
        assoc_get(self.values, r, Seq::empty())
    }

    /// The values of kind `k` attached to `r`, in insertion order.
    pub open spec fn values_at(self, r: LRange, k: AttrKind) -> Seq<AttrDataV> {
        assoc_get(self.bucket_at(r), k, Seq::empty())
    }

    /// Consistency of the three index sides with the value store, for a
    /// line of `n` tokens: a range is listed under a kind, and under its
    /// two boundary tokens, exactly when it holds a value of that kind;
    /// no list repeats a range; every listed range lies within the line.
    pub open spec fn wf(self, n: int) -> bool {
        &&& self.starts_at.len() == n
        &&& self.ends_at.len() == n
        &&& ranges_map_wf(self.ranges)
        &&& forall|i: int| 0 <= i < n ==> ranges_map_wf(#[trigger] self.starts_at[i])
        &&& forall|i: int| 0 <= i < n ==> ranges_map_wf(#[trigger] self.ends_at[i])
        &&& assoc_distinct(self.values)
        &&& forall|j: int| 0 <= j < self.values.len() ==> bucket_wf((#[trigger] self.values[j]).1)
        &&& forall|k: AttrKind, r: LRange|
            #![trigger self.kind_ranges(k).contains(r)]
            #![trigger self.values_at(r, k)]
            self.kind_ranges(k).contains(r) <==> self.values_at(r, k).len() > 0
        &&& forall|k: AttrKind, r: LRange, i: int|
            #![trigger self.starts_ranges(i, k).contains(r)]
            0 <= i < n ==> (self.starts_ranges(i, k).contains(r) <==> r.0 == i && self.values_at(
                r,
                k,
            ).len() > 0)
        &&& forall|k: AttrKind, r: LRange, i: int|
            #![trigger self.ends_ranges(i, k).contains(r)]
            0 <= i < n ==> (self.ends_ranges(i, k).contains(r) <==> r.1 == i && self.values_at(
                r,
                k,
            ).len() > 0)
        &&& forall|k: AttrKind, r: LRange|
            #![trigger self.kind_ranges(k).contains(r)]
            self.kind_ranges(k).contains(r) ==> r.0 <= r.1 < n
    }
}

/// The attribute store with no attribute yet, for a line of `n` tokens.
pub open spec fn empty_attrs(n: nat) -> AttrsV {
    AttrsV {
        ranges: Seq::empty(),
        starts_at: Seq::new(n, |i: int| Seq::empty()),
        ends_at: Seq::new(n, |i: int| Seq::empty()),
        values: Seq::empty(),
    }
}

/// The model of one insertion: `v` is appended to the bucket of `range`,
/// and `range` is recorded (deduplicated) under `v`'s kind in the global,
/// by-start and by-end sides.
pub open spec fn attrs_insert(m: AttrsV, range: LRange, v: AttrDataV) -> AttrsV {
    let k = kind_of(v);
    AttrsV {
        ranges: ranges_map_insert(m.ranges, k, range),
        starts_at: m.starts_at.update(
            range.0 as int,
            ranges_map_insert(m.starts_at[range.0 as int], k, range),
        ),
        ends_at: m.ends_at.update(
            range.1 as int,
            ranges_map_insert(m.ends_at[range.1 as int], k, range),
        ),
        values: if assoc_has(m.values, range) {
            let j = assoc_idx(m.values, range);
            m.values.update(j, (range, bucket_insert(m.values[j].1, v)))
        } else {
            m.values.push((range, bucket_insert(Seq::empty(), v)))
        },
    }
}

/// The internal attribute store.
pub(crate) struct LLLineAttrs {
    // "bi-map" / "tri-map"
    ranges: TypeIdToMany,
    /// forward probes read the entry at a range's first token
    starts_at: Vec<TypeIdToMany>,
    /// backward probes read the entry at a range's last token
    ends_at: Vec<TypeIdToMany>,
    values: Vec<(LRange, TypeBucket)>,
}

impl View for LLLineAttrs {
    type V = AttrsV;

    closed spec fn view(&self) -> AttrsV {
        AttrsV {
            ranges: self.ranges@,
            starts_at: tims_view(self.starts_at@),
            ends_at: tims_view(self.ends_at@),
            values: Seq::new(
                self.values@.len(),
                |i: int| (self.values@[i].0, self.values@[i].1@),
            ),
        }
    }
}

impl LLLineAttrs {
    /// An empty store for a line of `n` tokens.
    pub(crate) fn new(n: usize) -> (r: Self)
        ensures
            r@ == empty_attrs(n as nat),
            r@.wf(n as int),
    {
        let mut starts_at: Vec<TypeIdToMany> = Vec::new();
        let mut i: usize = 0;
        while i < n
            invariant
                i <= n,
                starts_at@.len() == i,
                forall|j: int|
                    0 <= j < i ==> (#[trigger] starts_at@[j])@ == Seq::<(
                        AttrKind,
                        Seq<LRange>,
                    )>::empty(),
            decreases n - i,
        {
            starts_at.push(TypeIdToMany::new());
            i += 1;
        }
        let mut ends_at: Vec<TypeIdToMany> = Vec::new();
        let mut i2: usize = 0;
        while i2 < n
            invariant
                i2 <= n,
                ends_at@.len() == i2,
                forall|j: int|
                    0 <= j < i2 ==> (#[trigger] ends_at@[j])@ == Seq::<(
                        AttrKind,
                        Seq<LRange>,
                    )>::empty(),
            decreases n - i2,
        {
            ends_at.push(TypeIdToMany::new());
            i2 += 1;
        }
        let r = LLLineAttrs { ranges: TypeIdToMany::new(), starts_at, ends_at, values: Vec::new() };
        proof {
            assert(r@ =~~= empty_attrs(n as nat));
        }
        r
    }

    /// Position of the value entry for `range`, if one exists.
    fn find_value_entry(&self, range: LRange) -> (r: Option<usize>)
        ensures
            match r {
                Some(j) => j < self@.values.len() && self@.values[j as int].0 == range && assoc_idx(
                    self@.values,
                    range,
                ) == j as int,
                None => !assoc_has(self@.values, range),
            },
    {
        let n = self.values.len();
        let mut j: usize = 0;
        while j < n
            invariant
                n == self.values.len(),
                j <= n,
                forall|q: int| 0 <= q < j ==> (#[trigger] self@.values[q]).0 != range,
            decreases n - j,
        {
            let key = self.values[j].0;
            if key.0 == range.0 && key.1 == range.1 {
                proof {
                    lemma_assoc_idx_first(self@.values, range, j as int);
                }
                return Some(j);
            }
            j += 1;
        }
        proof {
            lemma_assoc_idx_first(self@.values, range, n as int);
        }
        None
    }

    /// Record `value` at `range`: append it to the range's bucket and keep
    /// the three index sides consistent, without duplicating the range in
    /// any of them.
    pub(crate) fn insert(&mut self, range: LRange, value: AttrData)
        requires
            old(self)@.wf(old(self)@.starts_at.len() as int),
            range.0 <= range.1 < old(self)@.starts_at.len(),
        ensures
            final(self)@ == attrs_insert(old(self)@, range, value@),
            final(self)@.wf(old(self)@.starts_at.len() as int),
    {
        let ghost n = self@.starts_at.len() as int;
        let ghost m0 = self@;
        let k = value.kind();
        proof {
            assert(ranges_map_wf(m0.starts_at[range.0 as int]));
            assert(ranges_map_wf(m0.ends_at[range.1 as int]));
            assert(m0.starts_at[range.0 as int] == self.starts_at@[range.0 as int]@);
            assert(m0.ends_at[range.1 as int] == self.ends_at@[range.1 as int]@);
        }
        self.ranges.insert_distinct(k, range);
        self.starts_at[range.0].insert_distinct(k, range);
        self.ends_at[range.1].insert_distinct(k, range);
        let ghost m1 = self@;
        proof {
            assert(m1.starts_at =~= m0.starts_at.update(
                range.0 as int,
                ranges_map_insert(m0.starts_at[range.0 as int], k, range),
            ));
            assert(m1.ends_at =~= m0.ends_at.update(
                range.1 as int,
                ranges_map_insert(m0.ends_at[range.1 as int], k, range),
            ));
            assert(m1.values =~= m0.values);
        }
        match self.find_value_entry(range) {
            Some(j) => {
                let ghost old_bucket = self@.values[j as int].1;
                let ghost pre = self@.values;
                self.values[j].1.insert(value);
                proof {
                    assert(self@.values =~= pre.update(
                        j as int,
                        (range, bucket_insert(old_bucket, value@)),
                    ));
                    assert(self@ =~~= attrs_insert(m0, range, value@));
                }
            },
            None => {
                let ghost pre = self@.values;
                let mut bucket = TypeBucket::new();
                bucket.insert(value);
                self.values.push((range, bucket));
                proof {
                    assert(self@.values =~= pre.push(
                        (range, bucket_insert(Seq::empty(), value@)),
                    ));
                    assert(self@ =~~= attrs_insert(m0, range, value@));
                }
            },
        }
        proof {
            lemma_attrs_insert_wf(m0, n, range, value@);
        }
    }

    /// The by-start entry at token `i` for kind `k`.
    pub(crate) fn starts_at_get(&self, i: usize, k: AttrKind) -> (r: Vec<LRange>)
        requires
            i < self@.starts_at.len(),
        ensures
            r@ == self@.starts_ranges(i as int, k),
    {
        self.starts_at[i].get(k)
    }

    /// The by-end entry at token `i` for kind `k`.
    pub(crate) fn ends_at_get(&self, i: usize, k: AttrKind) -> (r: Vec<LRange>)
        requires
            i < self@.ends_at.len(),
        ensures
            r@ == self@.ends_ranges(i as int, k),
    {
        self.ends_at[i].get(k)
    }

    /// The values of kind `k` attached to `range`.
    pub(crate) fn values_get(&self, range: LRange, k: AttrKind) -> (r: Vec<AttrData>)
        ensures
            crate::type_bucket::datas_view(r@) == self@.values_at(range, k),
    {
        match self.find_value_entry(range) {
            Some(j) => self.values[j].1.get(k),
            None => {
                let out: Vec<AttrData> = Vec::new();
                proof {
                    assert(crate::type_bucket::datas_view(out@) =~= self@.values_at(range, k));
                }
                out
            },
        }
    }

    /// The textual forms of the values of kind `k` attached to `range`.
    pub(crate) fn values_debug(&self, range: LRange, k: AttrKind) -> (r: Vec<String>)
        ensures
            r@.map_values(|s: String| s@) == self@.values_at(range, k).map_values(
                |d: crate::attrs::AttrDataV| crate::type_bucket::render_attr(d),
            ),
    {
        match self.find_value_entry(range) {
            Some(j) => self.values[j].1.get_debug(k),
            None => {
                let out: Vec<String> = Vec::new();
                proof {
                    assert(out@.map_values(|s: String| s@) =~= self@.values_at(
                        range,
                        k,
                    ).map_values(|d: crate::attrs::AttrDataV| crate::type_bucket::render_attr(d)));
                }
                out
            },
        }
    }

    /// The global by-kind range list for `k`.
    pub(crate) fn ranges_get(&self, k: AttrKind) -> (r: Vec<LRange>)
        ensures
            r@ == self@.kind_ranges(k),
    {
        self.ranges.get(k)
    }
}


/// Seeding one token: a text token contributes its single character (when
/// it is exactly one character long) and then its lexical tag, both on the
/// single-token range; a placeholder contributes nothing.
pub open spec fn seed_token(m: AttrsV, i: usize, t: LTokenV) -> AttrsV {
    match t {
        LTokenV::Text(s, tag) => {
            let m1 = if s.len() == 1 {
                attrs_insert(m, (i, i), AttrDataV::Char(s[0]))
            } else {
                m
            };
            attrs_insert(m1, (i, i), AttrDataV::Tag(tag))
        },
        LTokenV::Value => m,
    }
}

/// The store seeded from the first `i` tokens of the line.
pub open spec fn seed_attrs(tokens: Seq<LLTokenV>, n: nat, i: int) -> AttrsV
    decreases i,
{
    if i <= 0 {
        empty_attrs(n)
    } else {
        seed_token(seed_attrs(tokens, n, i - 1), (i - 1) as usize, tokens[i - 1].token)
    }
}

/// Model of a whole line: its tokens and its attribute store.
#[verifier::ext_equal]
pub struct LLLineV {
    pub tokens: Seq<LLTokenV>,
    pub attrs: AttrsV,
}

impl LLLineV {
    /// Token indices are dense, countable by machine index, and the store
    /// is consistent.
    pub open spec fn wf(self) -> bool {
        &&& self.tokens.len() <= usize::MAX
        &&& self.attrs.wf(self.tokens.len() as int)
        &&& forall|i: int|
            0 <= i < self.tokens.len() ==> (#[trigger] self.tokens[i]).token_idx == i
    }
}

/// An immutable ordered sequence of tokens plus one attribute store.
pub struct LLLine {
    ll_tokens: Vec<LLToken>,
    attrs: LLLineAttrs,
}

impl View for LLLine {
    type V = LLLineV;

    closed spec fn view(&self) -> LLLineV {
        LLLineV { tokens: tokens_view(self.ll_tokens@), attrs: self.attrs@ }
    }
}

impl LLLine {
    /// Token indices are dense and the store is consistent.
    pub open spec fn wf(&self) -> bool {
        self@.wf()
    }

    /// Build a line from its tokens and seed the store: each text token
    /// gets its lexical tag, and its single character when it is exactly
    /// one character long.
    pub(crate) fn new(ll_tokens: Vec<LLToken>) -> (r: LLLine)
        requires
            forall|q: int|
                0 <= q < ll_tokens@.len() ==> (#[trigger] ll_tokens@[q]).token_idx == q,
        ensures
            r@.tokens == tokens_view(ll_tokens@),
            r@.attrs == seed_attrs(tokens_view(ll_tokens@), ll_tokens@.len(), ll_tokens@.len() as int),
            r.wf(),
    {
        let n = ll_tokens.len();
        let ghost toks = tokens_view(ll_tokens@);
        let mut attrs = LLLineAttrs::new(n);
        let mut idx: usize = 0;
        while idx < n
            invariant
                n == ll_tokens@.len(),
                idx <= n,
                toks == tokens_view(ll_tokens@),
                attrs@ == seed_attrs(toks, n as nat, idx as int),
                attrs@.wf(n as int),
                attrs@.starts_at.len() == n,
            decreases n - idx,
        {
            let ghost pre = attrs@;
            match &ll_tokens[idx].token {
                LToken::Text(text, tag) => {
                    if text.as_str().unicode_len() == 1 {
                        // insert char automatically if just one char
                        let c = text.as_str().get_char(0);
                        attrs.insert((idx, idx), AttrData::Char(c));
                    }
                    // insert TextTag automatically
                    attrs.insert((idx, idx), AttrData::Tag(*tag));
                },
                LToken::Value => {
                    // nothing to do...
                },
            }
            proof {
                assert(toks[idx as int].token == ll_tokens@[idx as int].token@);
                assert(attrs@ == seed_token(pre, idx, toks[idx as int].token));
            }
            idx += 1;
        }
        let r = LLLine { ll_tokens, attrs };
        proof {
            assert(r@.wf());
        }
        r
    }

    /// The line's tokens.
    pub fn ll_tokens(&self) -> (r: &Vec<LLToken>)
        ensures
            tokens_view(r@) == self@.tokens,
    {
        &self.ll_tokens
    }

    /// The position where token `idx` starts.
    pub(crate) fn pos_start_at(&self, idx: usize) -> (r: usize)
        requires
            idx < self@.tokens.len(),
        ensures
            r == self@.tokens[idx as int].pos_starts_at,
    {
        self.ll_tokens[idx].pos_starts_at
    }

    /// The position where token `idx` ends.
    pub(crate) fn pos_end_at(&self, idx: usize) -> (r: usize)
        requires
            idx < self@.tokens.len(),
        ensures
            r == self@.tokens[idx as int].pos_ends_at,
    {
        self.ll_tokens[idx].pos_ends_at
    }

    /// The token at `idx`.
    pub(crate) fn token_at(&self, idx: usize) -> (r: &LLToken)
        requires
            idx < self@.tokens.len(),
        ensures
            r@ == self@.tokens[idx as int],
    {
        &self.ll_tokens[idx]
    }

    /// Ranges of kind `k` starting exactly at token `i`.
    pub(crate) fn starts_probe(&self, i: usize, k: AttrKind) -> (r: Vec<LRange>)
        requires
            i < self@.tokens.len(),
            self.wf(),
        ensures
            r@ == self@.attrs.starts_ranges(i as int, k),
    {
        self.attrs.starts_at_get(i, k)
    }

    /// Ranges of kind `k` ending exactly at token `i`.
    pub(crate) fn ends_probe(&self, i: usize, k: AttrKind) -> (r: Vec<LRange>)
        requires
            i < self@.tokens.len(),
            self.wf(),
        ensures
            r@ == self@.attrs.ends_ranges(i as int, k),
    {
        self.attrs.ends_at_get(i, k)
    }

    /// The values of kind `k` attached to `range`.
    pub(crate) fn values_probe(&self, range: LRange, k: AttrKind) -> (r: Vec<AttrData>)
        ensures
            crate::type_bucket::datas_view(r@) == self@.attrs.values_at(range, k),
    {
        self.attrs.values_get(range, k)
    }

    /// The textual forms of the values of kind `k` attached to `range`.
    pub(crate) fn values_debug(&self, range: LRange, k: AttrKind) -> (r: Vec<String>)
        ensures
            r@.map_values(|s: String| s@) == self@.attrs.values_at(range, k).map_values(
                |d: crate::attrs::AttrDataV| crate::type_bucket::render_attr(d),
            ),
    {
        self.attrs.values_debug(range, k)
    }

    /// Ranges holding at least one value of kind `k`, in first-insertion
    /// order.
    pub(crate) fn ranges_probe(&self, k: AttrKind) -> (r: Vec<LRange>)
        ensures
            r@ == self@.attrs.kind_ranges(k),
    {
        self.attrs.ranges_get(k)
    }

    /// Run one annotation pass: hand it a selection spanning the whole
    /// line, then take back exclusive ownership and record every
    /// assignment it proposed, as one batch.  An empty line runs no pass
    /// and comes back unchanged.
    ///
    /// A pass that retains a selection (and with it shared access to the
    /// line) past its own return makes the exclusive-ownership handoff
    /// impossible; that programming error surfaces as `Err`, never as
    /// silent corruption.
    /// Record every assignment of the batch, in order, as one atomic
    /// merge: the tokens stay untouched and the store becomes exactly the
    /// old store with the batch applied.
    pub fn apply_assignments(self, assignments: Vec<LLCursorAssignment>) -> (r: LLLine)
        requires
            self.wf(),
            forall|i: int|
                0 <= i < assignments@.len() ==> (#[trigger] assignments@[i])@.start_idx
                    <= assignments@[i]@.end_idx < self@.tokens.len(),
        ensures
            r@.tokens == self@.tokens,
            r@.attrs == insert_assignments(self@.attrs, asgns_view(assignments@)),
            r.wf(),
    {
        let ghost selfv = self@;
        let ghost avs = asgns_view(assignments@);
        let mut line = self;
        let count = assignments.len();
        let mut i: usize = 0;
        proof {
            assert(line@.attrs == insert_assignments(selfv.attrs, avs.take(0)));
        }
        while i < count
            invariant
                count == assignments@.len(),
                i <= count,
                avs == asgns_view(assignments@),
                forall|q: int|
                    0 <= q < avs.len() ==> (#[trigger] avs[q]).start_idx <= avs[q].end_idx
                        < selfv.tokens.len(),
                line@.tokens == selfv.tokens,
                selfv.wf(),
                line@.attrs == insert_assignments(selfv.attrs, avs.take(i as int)),
                line@.attrs.wf(selfv.tokens.len() as int),
                line@.attrs.starts_at.len() == selfv.tokens.len(),
            decreases count - i,
        {
            let (start_idx, end_idx, value) = assignments[i].parts();
            proof {
                assert(avs[i as int] == assignments@[i as int]@);
            }
            line.attrs.insert((start_idx, end_idx), value);
            i += 1;
            proof {
                assert(avs.take(i as int).drop_last() =~= avs.take(i - 1));
                assert(avs.take(i as int).last() == avs[i - 1]);
                assert(line@.attrs == insert_assignments(selfv.attrs, avs.take(i as int)));
                lemma_insert_assignments_wf(
                    selfv.attrs,
                    avs.take(i as int),
                    selfv.tokens.len() as int,
                );
            }
        }
        proof {
            assert(avs.take(count as int) =~= avs);
            assert(line@.attrs == insert_assignments(selfv.attrs, avs));
            assert(line@.wf());
        }
        line
    }

    /// Run one annotation pass: hand it a selection spanning the whole
    /// line, then take back exclusive ownership and record every
    /// assignment it proposed, as one batch.  An empty line runs no pass
    /// and comes back unchanged.
    ///
    /// A pass that retains a selection (and with it shared access to the
    /// line) past its own return makes the exclusive-ownership handoff
    /// impossible; that programming error surfaces as `Err`, never as
    /// silent corruption.
    pub fn run<R: Resolver>(self, recognizer: &R) -> (r: Result<LLLine, PipelineError>)
        requires
            self.wf(),
        ensures
            self@.tokens.len() == 0 ==> (r matches Ok(l) && l@ == self@),
            r matches Ok(l) ==> l.wf() && l@.tokens == self@.tokens && (exists|asgns: Seq<AssignV>|
                (forall|i: int|
                    0 <= i < asgns.len() ==> (#[trigger] asgns[i]).start_idx <= asgns[i].end_idx
                        < self@.tokens.len()) && l@.attrs == insert_assignments(
                    self@.attrs,
                    asgns,
                )),
    {
        // Empty line can't recognize anything since it can't create a selection
        if self.ll_tokens.len() == 0 {
            proof {
                assert(self@.attrs == insert_assignments(self@.attrs, Seq::<AssignV>::empty()));
            }
            return Ok(self);
        }
        let ghost selfv = self@;
        let rc = Rc::new(self);
        let sel_opt = crate::ll_selection::LLSelection::from_line(rc_clone(&rc));
        let sel = match sel_opt {
            Some(s) => s,
            None => {
                proof {
                    assert(false);
                }
                return Err(PipelineError);
            },
        };
        let assignments = recognizer.go(sel);
        let ghost avs = asgns_view(assignments@);
        match Rc::try_unwrap(rc) {
            Ok(line) => {
                proof {
                    assert(line@ == selfv);
                }
                // store new attributes generated by the resolver
                Ok(line.apply_assignments(assignments))
            },
            Err(_) => Err(PipelineError),
        }
    }

    /// Attach every prepared value to the range `[start_idx, end_idx]`.
    pub(crate) fn add_any_attrs(
        &mut self,
        start_idx: usize,
        end_idx: usize,
        attrs: Vec<AnyAttribute>,
    )
        requires
            old(self).wf(),
            start_idx <= end_idx < old(self)@.tokens.len(),
        ensures
            final(self).wf(),
            final(self)@.tokens == old(self)@.tokens,
            final(self)@.attrs == insert_assignments(
                old(self)@.attrs,
                assigns_of(start_idx, end_idx, attrs.deep_view()),
            ),
    {
        let ghost m0 = self@.attrs;
        let ghost selfv = self@;
        let ghost avs = assigns_of(start_idx, end_idx, attrs.deep_view());
        let mut rest = attrs;
        let count = rest.len();
        let mut i: usize = 0;
        proof {
            assert(self@.attrs == insert_assignments(m0, avs.take(0)));
        }
        while i < count
            invariant
                count == avs.len(),
                i + rest@.len() == count,
                forall|q: int| 0 <= q < rest@.len() ==> (#[trigger] rest@[q])@ == avs[i + q].value,
                forall|q: int|
                    0 <= q < avs.len() ==> (#[trigger] avs[q]).start_idx == start_idx && avs[
                        q
                    ].end_idx == end_idx,
                start_idx <= end_idx < selfv.tokens.len(),
                self@.tokens == selfv.tokens,
                selfv.wf(),
                m0 == selfv.attrs,
                self@.attrs == insert_assignments(m0, avs.take(i as int)),
                self@.attrs.wf(selfv.tokens.len() as int),
                self@.attrs.starts_at.len() == selfv.tokens.len(),
            decreases count - i,
        {
            let a = rest.remove(0);
            proof {
                assert(a@ == avs[i as int].value);
            }
            self.attrs.insert((start_idx, end_idx), a.extract());
            i += 1;
            proof {
                assert(avs.take(i as int).drop_last() =~= avs.take(i - 1));
                assert(avs.take(i as int).last() == avs[i - 1]);
                assert(self@.attrs == insert_assignments(m0, avs.take(i as int)));
                assert forall|q: int| 0 <= q < i implies (#[trigger] avs.take(i as int)[q]).start_idx
                    <= avs.take(i as int)[q].end_idx < selfv.tokens.len() by {
                    assert(avs.take(i as int)[q] == avs[q]);
                }
                lemma_insert_assignments_wf(m0, avs.take(i as int), selfv.tokens.len() as int);
            }
        }
        proof {
            assert(avs.take(count as int) =~= avs);
        }
    }

    /// Every forward match of `matcher` anywhere in the line, reported
    /// with position spans rather than selections.
    pub fn find(&self, matcher: &crate::x::Matcher) -> (r: Vec<LLLineFind>)
        requires
            self.wf(),
        ensures
            finds_view(r@) == find_upto(self@, *matcher, self@.tokens.len() as int),
    {
        let n = self.ll_tokens.len();
        let mut out: Vec<LLLineFind> = Vec::new();
        let mut i: usize = 0;
        proof {
            assert(finds_view(out@) =~= find_upto(self@, *matcher, 0));
        }
        while i < n
            invariant
                self.wf(),
                n == self@.tokens.len(),
                i <= n,
                finds_view(out@) == find_upto(self@, *matcher, i as int),
            decreases n - i,
        {
            let hits = matcher.go(crate::x::Direction::Forwards, i, self);
            let ghost vh = crate::x::hits_view(hits@);
            let ghost base = finds_view(out@);
            let start_pos = self.pos_start_at(i);
            let nh = hits.len();
            let mut j: usize = 0;
            proof {
                assert(finds_view(out@) =~= base + hits_finds(self@, i, vh.take(0)));
            }
            while j < nh
                invariant
                    self.wf(),
                    nh == hits@.len(),
                    j <= nh,
                    i < n,
                    n == self@.tokens.len(),
                    start_pos == self@.tokens[i as int].pos_starts_at,
                    vh == crate::x::hits_view(hits@),
                    vh == crate::x::eval(*matcher, self@, crate::x::Direction::Forwards, i),
                    finds_view(out@) == base + hits_finds(self@, i, vh.take(j as int)),
                decreases nh - j,
            {
                let to = hits[j].1.0;
                proof {
                    crate::x::lemma_eval_in_bounds(
                        *matcher,
                        self@,
                        crate::x::Direction::Forwards,
                        i,
                    );
                    assert(vh[j as int].to == to);
                }
                let end_pos = self.pos_end_at(to);
                let parts = crate::x::copy_parts(&hits[j].0);
                let ghost pre_out = out@;
                let ghost newel = FindV {
                    start_pos_at: self@.tokens[i as int].pos_starts_at,
                    end_pos_at: self@.tokens[vh[j as int].to as int].pos_ends_at,
                    found: vh[j as int].parts,
                };
                let ghost pj = crate::x::parts_view(parts@);
                out.push(LLLineFind { start_pos_at: start_pos, end_pos_at: end_pos, found: parts });
                j += 1;
                proof {
                    assert(pj == vh[j - 1].parts);
                    assert(finds_view(out@) =~~= finds_view(pre_out).push(newel));
                    assert(vh.take(j as int).drop_last() =~= vh.take(j - 1));
                    assert(vh.take(j as int).last() == vh[j - 1]);
                    assert(hits_finds(self@, i, vh.take(j as int)) == hits_finds(
                        self@,
                        i,
                        vh.take(j - 1),
                    ).push(newel));
                    assert(finds_view(out@) =~~= base + hits_finds(self@, i, vh.take(j as int)));
                }
            }
            i += 1;
            proof {
                assert(vh.take(nh as int) =~= vh);
                assert(finds_view(out@) =~~= find_upto(self@, *matcher, i as int));
            }
        }
        out
    }

    /// The concatenated text of the tokens under `range`.
    fn range_text_exec(&self, range: LRange) -> (r: String)
        requires
            self.wf(),
            range.0 <= range.1 < self@.tokens.len(),
        ensures
            r@ == range_text(self@.tokens, range),
    {
        let mut text = String::new();
        let mut idx: usize = range.0;
        proof {
            assert(text@ =~= text_upto(self@.tokens, range.0 as int, range.0 as int));
        }
        while idx <= range.1
            invariant
                self.wf(),
                range.0 <= idx <= range.1 + 1,
                range.1 < self@.tokens.len(),
                text@ == text_upto(self@.tokens, range.0 as int, idx as int),
            decreases range.1 + 1 - idx,
        {
            match &self.ll_tokens[idx].token {
                LToken::Text(t, _) => {
                    text.append(t.as_str());
                },
                LToken::Value => {},
            }
            idx += 1;
            proof {
                assert(text@ =~= text_upto(self@.tokens, range.0 as int, idx as int));
            }
        }
        text
    }

    /// Every range holding at least one value of kind `k`, each paired
    /// with the text under it and all its `k`-values, in index order.
    pub fn query(&self, k: AttrKind) -> (r: Vec<(LRange, String, Vec<AttrData>)>)
        requires
            self.wf(),
        ensures
            r@.len() == self@.attrs.kind_ranges(k).len(),
            forall|q: int|
                0 <= q < r@.len() ==> {
                    let range = self@.attrs.kind_ranges(k)[q];
                    (#[trigger] r@[q]).0 == range && r@[q].1@ == range_text(self@.tokens, range)
                        && crate::type_bucket::datas_view(r@[q].2@) == self@.attrs.values_at(
                        range,
                        k,
                    )
                },
    {
        let ranges = self.ranges_probe(k);
        let ghost rgs = ranges@;
        let n = ranges.len();
        let mut out: Vec<(LRange, String, Vec<AttrData>)> = Vec::new();
        let mut i: usize = 0;
        while i < n
            invariant
                self.wf(),
                n == ranges@.len(),
                i <= n,
                rgs == ranges@,
                rgs == self@.attrs.kind_ranges(k),
                out@.len() == i,
                forall|q: int|
                    0 <= q < i ==> {
                        let range = rgs[q];
                        (#[trigger] out@[q]).0 == range && out@[q].1@ == range_text(
                            self@.tokens,
                            range,
                        ) && crate::type_bucket::datas_view(out@[q].2@) == self@.attrs.values_at(
                            range,
                            k,
                        )
                    },
            decreases n - i,
        {
            let range = ranges[i];
            proof {
                assert(self@.attrs.kind_ranges(k).contains(rgs[i as int]));
            }
            let text = self.range_text_exec(range);
            let vals = self.values_probe(range, k);
            out.push((range, text, vals));
            i += 1;
        }
        out
    }
}


/// Relies on `Rc::clone`: the clone shares the allocation and so equals
/// the original.
#[verifier::external_body]
pub(crate) fn rc_clone(rc: &Rc<LLLine>) -> (r: Rc<LLLine>)
    ensures
        r == *rc,
{
    Rc::clone(rc)
}

/// Model of an assignment proposed by an annotation pass.
#[verifier::ext_equal]
pub struct AssignV {
    pub start_idx: usize,
    pub end_idx: usize,
    pub value: AttrDataV,
}

/// A proposed assignment: attach `value` to the range
/// `[start_idx, end_idx]` once the running pass returns.
#[derive(Debug)]
pub struct LLCursorAssignment {
    // private
    start_idx: usize,
    end_idx: usize,
    // provided from resolver
    value: AttrData,
}

impl View for LLCursorAssignment {
    type V = AssignV;

    closed spec fn view(&self) -> AssignV {
        AssignV { start_idx: self.start_idx, end_idx: self.end_idx, value: self.value@ }
    }
}

impl LLCursorAssignment {
    /// Package a selection's bounds and a value.
    pub(crate) fn from_parts(start_idx: usize, end_idx: usize, value: AttrData) -> (r:
        LLCursorAssignment)
        ensures
            r@ == (AssignV { start_idx, end_idx, value: value@ }),
    {
        LLCursorAssignment { start_idx, end_idx, value }
    }

    /// Split into bounds and value.
    pub(crate) fn into_parts(self) -> (r: (usize, usize, AttrData))
        ensures
            r.0 == self@.start_idx,
            r.1 == self@.end_idx,
            r.2@ == self@.value,
    {
        (self.start_idx, self.end_idx, self.value)
    }

    /// The assignment's bounds and a copy of its value.
    pub(crate) fn parts(&self) -> (r: (usize, usize, AttrData))
        ensures
            r.0 == self@.start_idx,
            r.1 == self@.end_idx,
            r.2@ == self@.value,
    {
        (self.start_idx, self.end_idx, self.value.clone())
    }
}



/// Model of one match reported by [`LLLine::find`]: the position span of
/// the matched tokens and the captured parts.
#[verifier::ext_equal]
pub struct FindV {
    pub start_pos_at: usize,
    pub end_pos_at: usize,
    pub found: Seq<crate::x::OutPartV>,
}

/// One match reported by [`LLLine::find`], carrying the matched span's
/// positions (in the caller's units) and the captured parts.
#[derive(Debug)]
pub struct LLLineFind {
    start_pos_at: usize,
    end_pos_at: usize,
    found: Vec<crate::x::OutPart>,
}

impl View for LLLineFind {
    type V = FindV;

    closed spec fn view(&self) -> FindV {
        FindV {
            start_pos_at: self.start_pos_at,
            end_pos_at: self.end_pos_at,
            found: crate::x::parts_view(self.found@),
        }
    }
}

impl LLLineFind {
    /// The matched span's positions, in the caller's units.
    pub fn range(&self) -> (r: (usize, usize))
        ensures
            r.0 == self@.start_pos_at,
            r.1 == self@.end_pos_at,
    {
        (self.start_pos_at, self.end_pos_at)
    }

    /// The captured parts.
    pub fn attr(&self) -> (r: &Vec<crate::x::OutPart>)
        ensures
            crate::x::parts_view(r@) == self@.found,
    {
        &self.found
    }
}

/// The lift of a find list to its model.
pub open spec fn finds_view(v: Seq<LLLineFind>) -> Seq<FindV> {
    Seq::new(v.len(), |i: int| v[i]@)
}

/// Hits at boundary `i` as find results: the span runs from token `i`'s
/// start position to the reached token's end position.
pub open spec fn hits_finds(line: LLLineV, i: usize, hits: Seq<crate::x::HitV>) -> Seq<FindV>
    decreases hits.len(),
{
    if hits.len() == 0 {
        Seq::empty()
    } else {
        hits_finds(line, i, hits.drop_last()).push(
            FindV {
                start_pos_at: line.tokens[i as int].pos_starts_at,
                end_pos_at: line.tokens[hits.last().to as int].pos_ends_at,
                found: hits.last().parts,
            },
        )
    }
}

/// All forward matches from boundaries in `[0, upto)`, as find results.
pub open spec fn find_upto(line: LLLineV, m: crate::x::Matcher, upto: int) -> Seq<FindV>
    decreases upto,
{
    if upto <= 0 {
        Seq::empty()
    } else {
        find_upto(line, m, upto - 1) + hits_finds(
            line,
            (upto - 1) as usize,
            crate::x::eval(m, line, crate::x::Direction::Forwards, (upto - 1) as usize),
        )
    }
}

/// The text of the tokens in `[from, upto)`, concatenated; a placeholder
/// token contributes nothing.
pub open spec fn text_upto(tokens: Seq<LLTokenV>, from: int, upto: int) -> Seq<char>
    decreases upto - from,
{
    if upto <= from {
        Seq::empty()
    } else {
        text_upto(tokens, from, upto - 1) + (match tokens[upto - 1].token {
            LTokenV::Text(s, _) => s,
            LTokenV::Value => Seq::empty(),
        })
    }
}

/// The text under a range, both ends inclusive.
pub open spec fn range_text(tokens: Seq<LLTokenV>, r: LRange) -> Seq<char> {
    text_upto(tokens, r.0 as int, r.1 + 1)
}

/// One assignment list applied in order.
pub open spec fn asgns_view(v: Seq<LLCursorAssignment>) -> Seq<AssignV> {
    Seq::new(v.len(), |i: int| v[i]@)
}

/// One value list turned into assignments, all on one range.
pub open spec fn assigns_of(start_idx: usize, end_idx: usize, vals: Seq<AttrDataV>) -> Seq<
    AssignV,
> {
    Seq::new(vals.len(), |q: int| AssignV { start_idx, end_idx, value: vals[q] })
}

/// The store after recording every assignment, in order.
pub open spec fn insert_assignments(m: AttrsV, asgns: Seq<AssignV>) -> AttrsV
    decreases asgns.len(),
{
    if asgns.len() == 0 {
        m
    } else {
        let a = asgns.last();
        attrs_insert(
            insert_assignments(m, asgns.drop_last()),
            (a.start_idx, a.end_idx),
            a.value,
        )
    }
}

/// Recording in-bounds assignments keeps the store consistent and the
/// line's tokens untouched.
pub proof fn lemma_insert_assignments_wf(m: AttrsV, asgns: Seq<AssignV>, n: int)
    requires
        m.wf(n),
        forall|i: int|
            0 <= i < asgns.len() ==> (#[trigger] asgns[i]).start_idx <= asgns[i].end_idx < n,
    ensures
        insert_assignments(m, asgns).wf(n),
    decreases asgns.len(),
{
    if asgns.len() > 0 {
        lemma_insert_assignments_wf(m, asgns.drop_last(), n);
        let a = asgns.last();
        assert(asgns[asgns.len() - 1] == a);
        lemma_attrs_insert_wf(
            insert_assignments(m, asgns.drop_last()),
            n,
            (a.start_idx, a.end_idx),
            a.value,
        );
    }
}

/// A pass retained shared access to the line past its own return, so the
/// engine could not take back exclusive ownership to merge the pass's
/// assignments.  This reports a bug in the pass, not a runtime condition
/// to recover from.
#[derive(Debug)]
pub struct PipelineError;

/// An annotation pass: reads the line's current attributes through the
/// given whole-line selection and proposes new assignments.
pub trait Resolver {
    /// Produce this pass's assignments for the line under `selection`.
    /// Every proposed range must lie within that line.
    fn go(&self, selection: crate::ll_selection::LLSelection) -> (out: Vec<LLCursorAssignment>)
        requires
            selection@.wf(),
        ensures
            forall|i: int|
                0 <= i < out@.len() ==> (#[trigger] out@[i])@.start_idx <= out@[i]@.end_idx
                    < selection@.line.tokens.len(),
    ;
}

/// Inserting a value within bounds keeps the store consistent, and changes
/// each accessor exactly as stated.
pub proof fn lemma_attrs_insert_wf(m: AttrsV, n: int, range: LRange, v: AttrDataV)
    requires
        m.wf(n),
        range.0 <= range.1 < n,
    ensures
        attrs_insert(m, range, v).wf(n),
        attrs_insert(m, range, v).values_at(range, kind_of(v)) == m.values_at(
            range,
            kind_of(v),
        ).push(v),
        forall|r2: LRange, k2: AttrKind|
            r2 != range || k2 != kind_of(v) ==> attrs_insert(m, range, v).values_at(r2, k2)
                == m.values_at(r2, k2),
        attrs_insert(m, range, v).kind_ranges(kind_of(v)) == if m.kind_ranges(
            kind_of(v),
        ).contains(range) {
            m.kind_ranges(kind_of(v))
        } else {
            m.kind_ranges(kind_of(v)).push(range)
        },
        forall|k2: AttrKind|
            k2 != kind_of(v) ==> attrs_insert(m, range, v).kind_ranges(k2) == m.kind_ranges(k2),
        forall|i: int, k2: AttrKind|
            i != range.0 || k2 != kind_of(v) ==> attrs_insert(m, range, v).starts_ranges(i, k2)
                == m.starts_ranges(i, k2),
        forall|i: int, k2: AttrKind|
            i != range.1 || k2 != kind_of(v) ==> attrs_insert(m, range, v).ends_ranges(i, k2)
                == m.ends_ranges(i, k2),
        attrs_insert(m, range, v).starts_ranges(range.0 as int, kind_of(v)) == if m.starts_ranges(
            range.0 as int,
            kind_of(v),
        ).contains(range) {
            m.starts_ranges(range.0 as int, kind_of(v))
        } else {
            m.starts_ranges(range.0 as int, kind_of(v)).push(range)
        },
        attrs_insert(m, range, v).ends_ranges(range.1 as int, kind_of(v)) == if m.ends_ranges(
            range.1 as int,
            kind_of(v),
        ).contains(range) {
            m.ends_ranges(range.1 as int, kind_of(v))
        } else {
            m.ends_ranges(range.1 as int, kind_of(v)).push(range)
        },
{
    let k = kind_of(v);
    let post = attrs_insert(m, range, v);
    lemma_ranges_map_insert(m.ranges, k, range);
    lemma_ranges_map_insert(m.starts_at[range.0 as int], k, range);
    lemma_ranges_map_insert(m.ends_at[range.1 as int], k, range);
    // effect on the value store
    lemma_assoc_idx_in_bounds(m.values, range);
    if assoc_has(m.values, range) {
        let j = assoc_idx(m.values, range);
        assert forall|r2: LRange| true implies assoc_idx(post.values, r2) == assoc_idx(
            m.values,
            r2,
        ) by {
            lemma_assoc_update(m.values, j, bucket_insert(m.values[j].1, v), r2);
        }
        assert forall|r2: LRange| r2 != range implies post.bucket_at(r2) == m.bucket_at(r2) by {
            lemma_assoc_idx_in_bounds(m.values, r2);
        }
        assert(post.bucket_at(range) == bucket_insert(m.bucket_at(range), v));
        assert forall|i2: int, j2: int| 0 <= i2 < j2 < post.values.len() implies (
        #[trigger] post.values[i2]).0 != (#[trigger] post.values[j2]).0 by {
            assert(post.values[i2].0 == m.values[i2].0);
            assert(post.values[j2].0 == m.values[j2].0);
        }
        assert forall|j2: int| 0 <= j2 < post.values.len() implies bucket_wf(
            (#[trigger] post.values[j2]).1,
        ) by {
            if j2 != j {
                assert(post.values[j2] == m.values[j2]);
            } else {
                lemma_bucket_insert(m.values[j].1, v);
            }
        }
    } else {
        assert(m.bucket_at(range) =~= Seq::<(AttrKind, Seq<AttrDataV>)>::empty());
        assert forall|r2: LRange| true implies assoc_idx(post.values, r2) == (if assoc_has(
            m.values,
            r2,
        ) {
            assoc_idx(m.values, r2)
        } else if r2 == range {
            m.values.len() as int
        } else {
            -1
        }) by {
            lemma_assoc_push(m.values, (range, bucket_insert(Seq::empty(), v)), r2);
        }
        assert forall|r2: LRange| r2 != range implies post.bucket_at(r2) == m.bucket_at(r2) by {
            lemma_assoc_idx_in_bounds(m.values, r2);
            if assoc_has(m.values, r2) {
                assert(post.values[assoc_idx(m.values, r2)] == m.values[assoc_idx(m.values, r2)]);
            }
        }
        assert(post.bucket_at(range) == bucket_insert(m.bucket_at(range), v));
        assert forall|i2: int, j2: int| 0 <= i2 < j2 < post.values.len() implies (
        #[trigger] post.values[i2]).0 != (#[trigger] post.values[j2]).0 by {
            assert(post.values[i2] == m.values[i2]);
            if j2 < m.values.len() {
                assert(post.values[j2] == m.values[j2]);
            }
        }
        assert forall|j2: int| 0 <= j2 < post.values.len() implies bucket_wf(
            (#[trigger] post.values[j2]).1,
        ) by {
            if j2 < m.values.len() {
                assert(post.values[j2] == m.values[j2]);
            } else {
                lemma_bucket_insert(Seq::empty(), v);
            }
        }
    }
    lemma_bucket_insert(m.bucket_at(range), v);
    assert(post.values_at(range, k) == m.values_at(range, k).push(v));
    assert forall|r2: LRange, k2: AttrKind| r2 != range || k2 != k implies post.values_at(r2, k2)
        == m.values_at(r2, k2) by {
        if r2 != range {
            assert(post.bucket_at(r2) == m.bucket_at(r2));
        } else {
            lemma_bucket_insert(m.bucket_at(range), v);
        }
    }
    // the three sides keep the iff conditions
    assert forall|k2: AttrKind, r2: LRange| true implies (post.kind_ranges(k2).contains(r2) <==> post.values_at(
        r2,
        k2,
    ).len() > 0) by {
        if k2 == k && r2 == range {
            assert(post.kind_ranges(k).contains(range));
        } else if k2 == k {
            assert(post.kind_ranges(k).contains(r2) == m.kind_ranges(k).contains(r2));
        }
    }
    assert forall|k2: AttrKind, r2: LRange, i: int| 0 <= i < n implies (post.starts_ranges(
        i,
        k2,
    ).contains(r2) <==> r2.0 == i && post.values_at(r2, k2).len() > 0) by {
        assert(post.starts_at.len() == m.starts_at.len());
        if i == range.0 as int {
            let pmap = ranges_map_insert(m.starts_at[i], k, range);
            assert(post.starts_at[i] == pmap);
            assert(post.starts_ranges(i, k2) == assoc_get(pmap, k2, Seq::<LRange>::empty()));
            assert(m.starts_ranges(i, k2) == assoc_get(
                m.starts_at[i],
                k2,
                Seq::<LRange>::empty(),
            ));
            assert(assoc_get(pmap, k2, Seq::<LRange>::empty()).contains(r2) <==> (assoc_get(
                m.starts_at[i],
                k2,
                Seq::<LRange>::empty(),
            ).contains(r2) || (k2 == k && r2 == range)));
            assert(m.starts_ranges(i, k2).contains(r2) <==> (r2.0 == i && m.values_at(
                r2,
                k2,
            ).len() > 0));
        } else {
            assert(post.starts_at[i] == m.starts_at[i]);
            assert(m.starts_ranges(i, k2).contains(r2) <==> (r2.0 == i && m.values_at(
                r2,
                k2,
            ).len() > 0));
            assert(post.starts_ranges(i, k2) == m.starts_ranges(i, k2));
        }
    }
    assert forall|k2: AttrKind, r2: LRange, i: int| 0 <= i < n implies (post.ends_ranges(
        i,
        k2,
    ).contains(r2) <==> r2.1 == i && post.values_at(r2, k2).len() > 0) by {
        assert(post.ends_at.len() == m.ends_at.len());
        if i == range.1 as int {
            let pmap = ranges_map_insert(m.ends_at[i], k, range);
            assert(post.ends_at[i] == pmap);
            assert(post.ends_ranges(i, k2) == assoc_get(pmap, k2, Seq::<LRange>::empty()));
            assert(m.ends_ranges(i, k2) == assoc_get(m.ends_at[i], k2, Seq::<LRange>::empty()));
            assert(assoc_get(pmap, k2, Seq::<LRange>::empty()).contains(r2) <==> (assoc_get(
                m.ends_at[i],
                k2,
                Seq::<LRange>::empty(),
            ).contains(r2) || (k2 == k && r2 == range)));
            assert(m.ends_ranges(i, k2).contains(r2) <==> (r2.1 == i && m.values_at(
                r2,
                k2,
            ).len() > 0));
        } else {
            assert(post.ends_at[i] == m.ends_at[i]);
            assert(m.ends_ranges(i, k2).contains(r2) <==> (r2.1 == i && m.values_at(
                r2,
                k2,
            ).len() > 0));
            assert(post.ends_ranges(i, k2) == m.ends_ranges(i, k2));
        }
    }
    assert forall|k2: AttrKind, r2: LRange| post.kind_ranges(k2).contains(r2) implies r2.0 <= r2.1
        < n by {
        if !(k2 == k && r2 == range) {
            assert(m.kind_ranges(k2).contains(r2));
        }
    }
}

/// The effect of [`ranges_map_insert`] on lookups, and that it keeps the
/// map well formed.
pub proof fn lemma_ranges_map_insert(m: RangesMapV, k: AttrKind, range: LRange)
    requires
        ranges_map_wf(m),
    ensures
        ranges_map_wf(ranges_map_insert(m, k, range)),
        assoc_get(ranges_map_insert(m, k, range), k, Seq::empty()) == if assoc_get(
            m,
            k,
            Seq::empty(),
        ).contains(range) {
            assoc_get(m, k, Seq::empty())
        } else {
            assoc_get(m, k, Seq::empty()).push(range)
        },
        forall|k2: AttrKind|
            k2 != k ==> assoc_get(ranges_map_insert(m, k, range), k2, Seq::empty()) == assoc_get(
                m,
                k2,
                Seq::empty(),
            ),
        forall|k2: AttrKind, r2: LRange|
            assoc_get(ranges_map_insert(m, k, range), k2, Seq::empty()).contains(r2) <==> (
            assoc_get(m, k2, Seq::empty()).contains(r2) || (k2 == k && r2 == range)),
{
    let post = ranges_map_insert(m, k, range);
    lemma_assoc_idx_in_bounds(m, k);
    if assoc_has(m, k) {
        let i = assoc_idx(m, k);
        if m[i].1.contains(range) {
        } else {
            assert forall|k2: AttrKind| true implies assoc_idx(post, k2) == assoc_idx(m, k2) by {
                lemma_assoc_update(m, i, m[i].1.push(range), k2);
            }
            assert forall|k2: AttrKind| k2 != k implies assoc_get(post, k2, Seq::<LRange>::empty())
                == assoc_get(m, k2, Seq::empty()) by {
                lemma_assoc_idx_in_bounds(m, k2);
            }
            assert forall|i2: int, j2: int| 0 <= i2 < j2 < post.len() implies (
            #[trigger] post[i2]).0 != (#[trigger] post[j2]).0 by {
                assert(post[i2].0 == m[i2].0);
                assert(post[j2].0 == m[j2].0);
            }
            assert forall|i2: int| 0 <= i2 < post.len() implies seq_distinct(
                (#[trigger] post[i2]).1,
            ) by {
                if i2 != i {
                    assert(post[i2] == m[i2]);
                } else {
                    assert(seq_distinct(m[i].1.push(range)));
                }
            }
        }
    } else {
        assert(assoc_get(m, k, Seq::<LRange>::empty()) =~= Seq::<LRange>::empty());
        assert forall|k2: AttrKind| true implies assoc_idx(post, k2) == (if assoc_has(m, k2) {
            assoc_idx(m, k2)
        } else if k2 == k {
            m.len() as int
        } else {
            -1
        }) by {
            lemma_assoc_push(m, (k, seq![range]), k2);
        }
        assert forall|k2: AttrKind| k2 != k implies assoc_get(post, k2, Seq::<LRange>::empty())
            == assoc_get(m, k2, Seq::empty()) by {
            lemma_assoc_idx_in_bounds(m, k2);
            if assoc_has(m, k2) {
                assert(post[assoc_idx(m, k2)] == m[assoc_idx(m, k2)]);
            }
        }
        assert(assoc_get(post, k, Seq::<LRange>::empty()) =~= assoc_get(
            m,
            k,
            Seq::empty(),
        ).push(range));
        assert forall|i2: int, j2: int| 0 <= i2 < j2 < post.len() implies (#[trigger] post[i2]).0
            != (#[trigger] post[j2]).0 by {
            assert(post[i2] == m[i2]);
            if j2 < m.len() {
                assert(post[j2] == m[j2]);
            }
        }
        assert forall|i2: int| 0 <= i2 < post.len() implies seq_distinct(
            (#[trigger] post[i2]).1,
        ) by {
            if i2 < m.len() {
                assert(post[i2] == m[i2]);
            } else {
                assert(post[i2].1 =~= seq![range]);
            }
        }
    }
    assert forall|k2: AttrKind, r2: LRange| true implies (assoc_get(
        post,
        k2,
        Seq::<LRange>::empty(),
    ).contains(r2) <==> (assoc_get(m, k2, Seq::<LRange>::empty()).contains(r2) || (k2 == k && r2
        == range))) by {
        if k2 == k {
            let before = assoc_get(m, k, Seq::<LRange>::empty());
            let after = assoc_get(post, k, Seq::<LRange>::empty());
            if before.contains(range) {
                assert(after == before);
            } else {
                assert(after == before.push(range));
                assert(after[before.len() as int] == range);
                assert(after.contains(range));
                if after.contains(r2) && r2 != range {
                    let q = choose|q: int| 0 <= q < after.len() && after[q] == r2;
                    assert(q != before.len() as int);
                    assert(before[q] == r2);
                    assert(before.contains(r2));
                }
                if before.contains(r2) {
                    let q = choose|q: int| 0 <= q < before.len() && before[q] == r2;
                    assert(after[q] == r2);
                }
            }
        }
    }
}

/// The effect of [`bucket_insert`] on lookups, and that it keeps the
/// bucket well formed.
pub proof fn lemma_bucket_insert(m: BucketV, v: AttrDataV)
    requires
        bucket_wf(m),
    ensures
        bucket_wf(bucket_insert(m, v)),
        assoc_get(bucket_insert(m, v), kind_of(v), Seq::empty()) == assoc_get(
            m,
            kind_of(v),
            Seq::empty(),
        ).push(v),
        forall|k2: AttrKind|
            k2 != kind_of(v) ==> assoc_get(bucket_insert(m, v), k2, Seq::empty()) == assoc_get(
                m,
                k2,
                Seq::empty(),
            ),
{
    let k = kind_of(v);
    let post = bucket_insert(m, v);
    lemma_assoc_idx_in_bounds(m, k);
    if assoc_has(m, k) {
        let i = assoc_idx(m, k);
        assert forall|k2: AttrKind| true implies assoc_idx(post, k2) == assoc_idx(m, k2) by {
            lemma_assoc_update(m, i, m[i].1.push(v), k2);
        }
        assert forall|k2: AttrKind| k2 != k implies assoc_get(post, k2, Seq::<AttrDataV>::empty())
            == assoc_get(m, k2, Seq::empty()) by {
            lemma_assoc_idx_in_bounds(m, k2);
        }
        assert forall|i2: int, j2: int| 0 <= i2 < j2 < post.len() implies (#[trigger] post[i2]).0
            != (#[trigger] post[j2]).0 by {
            assert(post[i2].0 == m[i2].0);
            assert(post[j2].0 == m[j2].0);
        }
    } else {
        assert(assoc_get(m, k, Seq::<AttrDataV>::empty()) =~= Seq::<AttrDataV>::empty());
        assert forall|k2: AttrKind| true implies assoc_idx(post, k2) == (if assoc_has(m, k2) {
            assoc_idx(m, k2)
        } else if k2 == k {
            m.len() as int
        } else {
            -1
        }) by {
            lemma_assoc_push(m, (k, seq![v]), k2);
        }
        assert forall|k2: AttrKind| k2 != k implies assoc_get(post, k2, Seq::<AttrDataV>::empty())
            == assoc_get(m, k2, Seq::empty()) by {
            lemma_assoc_idx_in_bounds(m, k2);
            if assoc_has(m, k2) {
                assert(post[assoc_idx(m, k2)] == m[assoc_idx(m, k2)]);
            }
        }
        assert(assoc_get(post, k, Seq::<AttrDataV>::empty()) =~= assoc_get(
            m,
            k,
            Seq::empty(),
        ).push(v));
        assert forall|i2: int, j2: int| 0 <= i2 < j2 < post.len() implies (#[trigger] post[i2]).0
            != (#[trigger] post[j2]).0 by {
            assert(post[i2] == m[i2]);
            if j2 < m.len() {
                assert(post[j2] == m[j2]);
            }
        }
    }
}

} // verus!
