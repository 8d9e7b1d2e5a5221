//! One side of the index: for each attribute kind, the list of ranges
//! currently carrying at least one value of that kind, deduplicated and
//! kept in first-insertion order.

use vstd::prelude::*;

use crate::assoc::{assoc_distinct, assoc_get, assoc_has, assoc_idx, lemma_assoc_idx_first,
    lemma_assoc_idx_in_bounds, lemma_assoc_push, lemma_assoc_update};
use crate::attrs::AttrKind;

verus! {

/// A token-index range, as a pair of inclusive token indices.
pub type LRange = (usize, usize);

/// Model of one index side: per-kind range lists.
pub type RangesMapV = Seq<(AttrKind, Seq<LRange>)>;

/// Maps each attribute kind to the deduplicated, insertion-ordered list of
/// ranges holding at least one value of that kind.
pub struct TypeIdToMany {
    entries: Vec<(AttrKind, Vec<LRange>)>,
}

/// A sequence has no repeated element.
pub open spec fn seq_distinct<T>(s: Seq<T>) -> bool {
    forall|i: int, j: int| 0 <= i < j < s.len() ==> s[i] != s[j]
}

/// Kinds are unique and every per-kind list is free of repeats.
pub open spec fn ranges_map_wf(m: RangesMapV) -> bool {
    &&& assoc_distinct(m)
    &&& forall|i: int| 0 <= i < m.len() ==> seq_distinct((#[trigger] m[i]).1)
}

impl View for TypeIdToMany {
    type V = RangesMapV;

    closed spec fn view(&self) -> Seq<(AttrKind, Seq<LRange>)> {
        Seq::new(self.entries@.len(), |i: int| (self.entries@[i].0, self.entries@[i].1@))
    }
}

/// The model of [`TypeIdToMany::insert_distinct`]: record `range` under `k`
/// unless the pair is already recorded.
pub open spec fn ranges_map_insert(
    m: Seq<(AttrKind, Seq<LRange>)>,
    k: AttrKind,
    range: LRange,
) -> Seq<(AttrKind, Seq<LRange>)> {
    if assoc_has(m, k) {
        let i = assoc_idx(m, k);
        if m[i].1.contains(range) {
            m
        } else {
            m.update(i, (k, m[i].1.push(range)))
        }
    } else {
        m.push((k, seq![range]))
    }
}

impl TypeIdToMany {
    /// The ranges recorded under `k`, in first-insertion order.
    pub open spec fn ranges_of(&self, k: AttrKind) -> Seq<LRange> {
        assoc_get(self@, k, Seq::empty())
    }

    /// Kinds are unique and every per-kind list is free of repeats.
    pub open spec fn wf(&self) -> bool {
        ranges_map_wf(self@)
    }

    /// An empty index side.
    pub fn new() -> (r: Self)
        ensures
            r.wf(),
            r@ == Seq::<(AttrKind, Seq<LRange>)>::empty(),
    {
        let r = TypeIdToMany { entries: Vec::new() };
        proof {
            assert(r@ =~= Seq::<(AttrKind, Seq<LRange>)>::empty());
        }
        r
    }

    /// Position of the entry for `k`, if one exists.
    fn find_entry(&self, k: AttrKind) -> (r: Option<usize>)
        ensures
            match r {
                Some(i) => i < self@.len() && self@[i as int].0 == k && assoc_idx(self@, k)
                    == i as int,
                None => !assoc_has(self@, k),
            },
    {
        let n = self.entries.len();
        let mut i: usize = 0;
        while i < n
            invariant
                n == self.entries.len(),
                i <= n,
                forall|j: int| 0 <= j < i ==> (#[trigger] self@[j]).0 != k,
            decreases n - i,
        {
            if self.entries[i].0 == k {
                proof {
                    lemma_assoc_idx_first(self@, k, i as int);
                }
                return Some(i);
            }
            i += 1;
        }
        proof {
            lemma_assoc_idx_first(self@, k, n as int);
        }
        None
    }

    /// Record `range` under `k` unless that pair is already recorded.
    pub fn insert_distinct(&mut self, k: AttrKind, range: LRange)
        requires
            old(self).wf(),
        ensures
            final(self).wf(),
            final(self)@ == ranges_map_insert(old(self)@, k, range),
            final(self).ranges_of(k) == if old(self).ranges_of(k).contains(range) {
                old(self).ranges_of(k)
            } else {
                old(self).ranges_of(k).push(range)
            },
            forall|k2: AttrKind| k2 != k ==> final(self).ranges_of(k2) == old(self).ranges_of(k2),
    {
        match self.find_entry(k) {
            Some(i) => {
                proof {
                    assert(self.ranges_of(k) == self@[i as int].1);
                }
                let ghost old_list = self@[i as int].1;
                if contains_range(&self.entries[i].1, range) {
                    proof {
                        assert(old_list.contains(range));
                        assert(self@ == ranges_map_insert(old(self)@, k, range));
                    }
                } else {
                    let ghost pre = self@;
                    self.entries[i].1.push(range);
                    proof {
                        assert(self@ =~= pre.update(i as int, (k, old_list.push(range))));
                        assert forall|k2: AttrKind| true implies assoc_idx(self@, k2) == assoc_idx(
                            pre,
                            k2,
                        ) by {
                            lemma_assoc_update(pre, i as int, old_list.push(range), k2);
                        }
                        assert forall|k2: AttrKind| k2 != k implies self.ranges_of(k2) == old(
                            self,
                        ).ranges_of(k2) by {
                            lemma_assoc_idx_in_bounds(pre, k2);
                        }
                        assert(seq_distinct(old_list.push(range)));
                        assert forall|i2: int, j2: int| 0 <= i2 < j2 < self@.len() implies (
                        #[trigger] self@[i2]).0 != (#[trigger] self@[j2]).0 by {
                            assert(self@[i2].0 == pre[i2].0);
                            assert(self@[j2].0 == pre[j2].0);
                        }
                        assert forall|i2: int| 0 <= i2 < self@.len() implies seq_distinct(
                            (#[trigger] self@[i2]).1,
                        ) by {
                            if i2 != i as int {
                                assert(self@[i2] == pre[i2]);
                            }
                        }
                    }
                }
            },
            None => {
                proof {
                    assert(self.ranges_of(k) =~= Seq::<LRange>::empty());
                }
                let ghost pre = self@;
                let mut singleton: Vec<LRange> = Vec::new();
                singleton.push(range);
                self.entries.push((k, singleton));
                proof {
                    assert(self@ =~= pre.push((k, seq![range])));
                    assert forall|k2: AttrKind| true implies assoc_idx(self@, k2) == (if assoc_has(
                        pre,
                        k2,
                    ) {
                        assoc_idx(pre, k2)
                    } else if k2 == k {
                        pre.len() as int
                    } else {
                        -1
                    }) by {
                        lemma_assoc_push(pre, (k, seq![range]), k2);
                    }
                    assert forall|k2: AttrKind| k2 != k implies self.ranges_of(k2) == old(
                        self,
                    ).ranges_of(k2) by {
                        lemma_assoc_idx_in_bounds(pre, k2);
                        if assoc_has(pre, k2) {
                            assert(self@[assoc_idx(pre, k2)] == pre[assoc_idx(pre, k2)]);
                        }
                    }
                    assert(self.ranges_of(k) =~= old(self).ranges_of(k).push(range));
                    lemma_assoc_idx_in_bounds(pre, k);
                    assert forall|i2: int, j2: int| 0 <= i2 < j2 < self@.len() implies (
                    #[trigger] self@[i2]).0 != (#[trigger] self@[j2]).0 by {
                        assert(self@[i2] == pre[i2]);
                        if j2 < pre.len() {
                            assert(self@[j2] == pre[j2]);
                        }
                    }
                    assert forall|i2: int| 0 <= i2 < self@.len() implies seq_distinct(
                        (#[trigger] self@[i2]).1,
                    ) by {
                        if i2 < pre.len() {
                            assert(self@[i2] == pre[i2]);
                        } else {
                            assert(self@[i2].1 =~= seq![range]);
                        }
                    }
                }
            },
        }
    }

    /// Copy of the range list recorded under `k` (empty when none is).
    pub fn get(&self, k: AttrKind) -> (r: Vec<LRange>)
        ensures
            r@ == self.ranges_of(k),
    {
        match self.find_entry(k) {
            Some(i) => copy_ranges(&self.entries[i].1),
            None => {
                let out: Vec<LRange> = Vec::new();
                proof {
                    assert(out@ =~= self.ranges_of(k));
                }
                out
            },
        }
    }
}

/// Whether `v` holds `range`.
fn contains_range(v: &Vec<LRange>, range: LRange) -> (r: bool)
    ensures
        r == v@.contains(range),
{
    let n = v.len();
    let mut i: usize = 0;
    while i < n
        invariant
            n == v@.len(),
            i <= n,
            forall|j: int| 0 <= j < i ==> v@[j] != range,
        decreases n - i,
    {
        let e = v[i];
        if e.0 == range.0 && e.1 == range.1 {
            return true;
        }
        i += 1;
    }
    false
}

/// Element-wise copy of a range list.
fn copy_ranges(v: &Vec<LRange>) -> (r: Vec<LRange>)
    ensures
        r@ == v@,
{
    let n = v.len();
    let mut out: Vec<LRange> = Vec::new();
    let mut i: usize = 0;
    while i < n
        invariant
            n == v@.len(),
            i <= n,
            out@ == v@.take(i as int),
        decreases n - i,
    {
        out.push(v[i]);
        i += 1;
        proof {
            assert(out@ =~= v@.take(i as int));
        }
    }
    proof {
        assert(out@ =~= v@);
    }
    out
}

} // verus!
