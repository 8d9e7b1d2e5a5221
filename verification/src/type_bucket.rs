//! The per-range container: for one range, an insertion-ordered list of
//! attribute values per attribute kind.

use vstd::prelude::*;

use crate::assoc::{assoc_distinct, assoc_get, assoc_has, assoc_idx, lemma_assoc_idx_first,
    lemma_assoc_idx_in_bounds, lemma_assoc_push, lemma_assoc_update};
use crate::attrs::{kind_of, AttrData, AttrDataV, AttrKind, TextTag};

verus! {

/// A prepared attribute value, ready to be handed to the store.
pub struct AnyAttribute {
    data: AttrData,
}

impl View for AnyAttribute {
    type V = AttrDataV;

    closed spec fn view(&self) -> AttrDataV {
        self.data@
    }
}

impl DeepView for AnyAttribute {
    type V = AttrDataV;

    open spec fn deep_view(&self) -> AttrDataV {
        self.view()
    }
}

impl AnyAttribute {
    /// Wrap `value` for later insertion.
    pub fn new(value: AttrData) -> (r: Self)
        ensures
            r@ == value@,
    {
        AnyAttribute { data: value }
    }

    /// Take the wrapped value back out.
    pub fn extract(self) -> (r: AttrData)
        ensures
            r@ == self@,
    {
        self.data
    }

    /// The kind under which the wrapped value is indexed.
    pub fn type_id(&self) -> (k: AttrKind)
        ensures
            k == kind_of(self@),
    {
        self.data.kind()
    }
}

/// Model of a per-range bucket: per-kind value lists.
pub type BucketV = Seq<(AttrKind, Seq<AttrDataV>)>;

/// Kinds are unique.
pub open spec fn bucket_wf(m: BucketV) -> bool {
    assoc_distinct(m)
}

/// The lift of an attribute-value list to its model.
pub open spec fn datas_view(v: Seq<AttrData>) -> Seq<AttrDataV> {
    v.map_values(|d: AttrData| d@)
}

/// Per-range storage: every value ever attached to one range, grouped by
/// kind, each group in insertion order.
pub struct TypeBucket {
    entries: Vec<(AttrKind, Vec<AttrData>)>,
}

impl View for TypeBucket {
    type V = BucketV;

    closed spec fn view(&self) -> Seq<(AttrKind, Seq<AttrDataV>)> {
        Seq::new(self.entries@.len(), |i: int| (self.entries@[i].0, datas_view(self.entries@[i].1@)))
    }
}

/// The model of [`TypeBucket::insert`]: append `v` to the group of its kind.
pub open spec fn bucket_insert(m: BucketV, v: AttrDataV) -> BucketV {
    let k = kind_of(v);
    if assoc_has(m, k) {
        let i = assoc_idx(m, k);
        m.update(i, (k, m[i].1.push(v)))
    } else {
        m.push((k, seq![v]))
    }
}

impl TypeBucket {
    /// The values stored under `k`, in insertion order.
    pub open spec fn values_of(&self, k: AttrKind) -> Seq<AttrDataV> {
        assoc_get(self@, k, Seq::empty())
    }

    /// Kinds are unique.
    pub open spec fn wf(&self) -> bool {
        bucket_wf(self@)
    }

    /// An empty bucket.
    pub fn new() -> (r: Self)
        ensures
            r.wf(),
            r@ == Seq::<(AttrKind, Seq<AttrDataV>)>::empty(),
    {
        let r = TypeBucket { entries: Vec::new() };
        proof {
            assert(r@ =~= Seq::<(AttrKind, Seq<AttrDataV>)>::empty());
        }
        r
    }

    /// Position of the entry for `k`, if one exists.
    fn find_entry(&self, k: AttrKind) -> (r: Option<usize>)
        ensures
            match r {
                Some(i) => i < self@.len() && self@[i as int].0 == k && assoc_idx(self@, k)
                    == i as int,
                None => !assoc_has(self@, k),
            },
    {
        let n = self.entries.len();
        let mut i: usize = 0;
        while i < n
            invariant
                n == self.entries.len(),
                i <= n,
                forall|j: int| 0 <= j < i ==> (#[trigger] self@[j]).0 != k,
            decreases n - i,
        {
            if self.entries[i].0 == k {
                proof {
                    lemma_assoc_idx_first(self@, k, i as int);
                }
                return Some(i);
            }
            i += 1;
        }
        proof {
            lemma_assoc_idx_first(self@, k, n as int);
        }
        None
    }

    /// Append `val` to the group of its own kind.
    pub fn insert(&mut self, val: AttrData)
        requires
            old(self).wf(),
        ensures
            final(self).wf(),
            final(self)@ == bucket_insert(old(self)@, val@),
            final(self).values_of(kind_of(val@)) == old(self).values_of(kind_of(val@)).push(val@),
            forall|k2: AttrKind|
                k2 != kind_of(val@) ==> final(self).values_of(k2) == old(self).values_of(k2),
    {
        let k = val.kind();
        match self.find_entry(k) {
            Some(i) => {
                let ghost old_list = self@[i as int].1;
                let ghost pre = self@;
                self.entries[i].1.push(val);
                proof {
                    assert(datas_view(self.entries@[i as int].1@) =~= old_list.push(val@));
                    assert(self@ =~= pre.update(i as int, (k, old_list.push(val@))));
                    assert forall|k2: AttrKind| true implies assoc_idx(self@, k2) == assoc_idx(
                        pre,
                        k2,
                    ) by {
                        lemma_assoc_update(pre, i as int, old_list.push(val@), k2);
                    }
                    assert forall|k2: AttrKind| k2 != k implies self.values_of(k2) == old(
                        self,
                    ).values_of(k2) by {
                        lemma_assoc_idx_in_bounds(pre, k2);
                    }
                    assert forall|i2: int, j2: int| 0 <= i2 < j2 < self@.len() implies (
                    #[trigger] self@[i2]).0 != (#[trigger] self@[j2]).0 by {
                        assert(self@[i2].0 == pre[i2].0);
                        assert(self@[j2].0 == pre[j2].0);
                    }
                }
            },
            None => {
                proof {
                    assert(self.values_of(k) =~= Seq::<AttrDataV>::empty());
                }
                let ghost pre = self@;
                let mut singleton: Vec<AttrData> = Vec::new();
                singleton.push(val);
                self.entries.push((k, singleton));
                proof {
                    assert(datas_view(singleton@) =~= seq![val@]);
                    assert(self@ =~= pre.push((k, seq![val@])));
                    assert forall|k2: AttrKind| true implies assoc_idx(self@, k2) == (if assoc_has(
                        pre,
                        k2,
                    ) {
                        assoc_idx(pre, k2)
                    } else if k2 == k {
                        pre.len() as int
                    } else {
                        -1
                    }) by {
                        lemma_assoc_push(pre, (k, seq![val@]), k2);
                    }
                    assert forall|k2: AttrKind| k2 != k implies self.values_of(k2) == old(
                        self,
                    ).values_of(k2) by {
                        lemma_assoc_idx_in_bounds(pre, k2);
                        if assoc_has(pre, k2) {
                            assert(self@[assoc_idx(pre, k2)] == pre[assoc_idx(pre, k2)]);
                        }
                    }
                    assert(self.values_of(k) =~= old(self).values_of(k).push(val@));
                    lemma_assoc_idx_in_bounds(pre, k);
                    assert forall|i2: int, j2: int| 0 <= i2 < j2 < self@.len() implies (
                    #[trigger] self@[i2]).0 != (#[trigger] self@[j2]).0 by {
                        assert(self@[i2] == pre[i2]);
                        if j2 < pre.len() {
                            assert(self@[j2] == pre[j2]);
                        }
                    }
                }
            },
        }
    }

    /// Insert a prepared attribute value.
    pub fn insert_any_attribute(&mut self, attr: AnyAttribute)
        requires
            old(self).wf(),
        ensures
            final(self).wf(),
            final(self)@ == bucket_insert(old(self)@, attr@),
    {
        self.insert(attr.extract());
    }

    /// Copies of the values stored under `k`, in insertion order.
    pub fn get(&self, k: AttrKind) -> (r: Vec<AttrData>)
        ensures
            datas_view(r@) == self.values_of(k),
    {
        match self.find_entry(k) {
            Some(i) => copy_datas(&self.entries[i].1),
            None => {
                let out: Vec<AttrData> = Vec::new();
                proof {
                    assert(datas_view(out@) =~= self.values_of(k));
                }
                out
            },
        }
    }

    /// The textual form of each value stored under `k`, in insertion order.
    pub fn get_debug(&self, k: AttrKind) -> (r: Vec<String>)
        ensures
            r@.map_values(|s: String| s@) == self.values_of(k).map_values(
                |d: AttrDataV| render_attr(d),
            ),
    {
        let vals = self.get(k);
        let n = vals.len();
        let mut out: Vec<String> = Vec::new();
        let mut i: usize = 0;
        while i < n
            invariant
                n == vals@.len(),
                i <= n,
                datas_view(vals@) == self.values_of(k),
                out@.len() == i,
                forall|q: int|
                    0 <= q < i ==> (#[trigger] out@[q])@ == render_attr(datas_view(vals@)[q]),
            decreases n - i,
        {
            out.push(render(&vals[i]));
            i += 1;
        }
        proof {
            assert(out@.map_values(|s: String| s@) =~~= self.values_of(k).map_values(
                |d: AttrDataV| render_attr(d),
            ));
        }
        out
    }

    /// Drop every stored value.
    pub fn clear(&mut self)
        ensures
            final(self).wf(),
            final(self)@ == Seq::<(AttrKind, Seq<AttrDataV>)>::empty(),
    {
        self.entries = Vec::new();
        proof {
            assert(self@ =~= Seq::<(AttrKind, Seq<AttrDataV>)>::empty());
        }
    }
}

/// The textual form of an attribute value: the tag's name, the quoted
/// character, or a custom value's caller-given label.
pub open spec fn render_attr(d: AttrDataV) -> Seq<char> {
    match d {
        AttrDataV::Tag(TextTag::NATN) => "NATN"@,
        AttrDataV::Tag(TextTag::PUNC) => "PUNC"@,
        AttrDataV::Tag(TextTag::SYMB) => "SYMB"@,
        AttrDataV::Tag(TextTag::SPACE) => "SPACE"@,
        AttrDataV::Tag(TextTag::WORD) => "WORD"@,
        AttrDataV::Char(c) => seq!['\''].push(c).push('\''),
        AttrDataV::Custom(_, s) => s,
    }
}

/// Build the textual form of one attribute value.
pub fn render(d: &AttrData) -> (r: String)
    ensures
        r@ == render_attr(d@),
{
    match d {
        AttrData::Tag(TextTag::NATN) => String::from_str("NATN"),
        AttrData::Tag(TextTag::PUNC) => String::from_str("PUNC"),
        AttrData::Tag(TextTag::SYMB) => String::from_str("SYMB"),
        AttrData::Tag(TextTag::SPACE) => String::from_str("SPACE"),
        AttrData::Tag(TextTag::WORD) => String::from_str("WORD"),
        AttrData::Char(c) => {
            let mut s = String::from_str("'");
            s.append(char_str(*c).as_str());
            s.append("'");
            proof {
                reveal_strlit("'");
                assert(s@ =~= render_attr(d@));
            }
            s
        },
        AttrData::Custom(_, s) => s.clone(),
    }
}

/// A one-character string.
fn char_str(c: char) -> (r: String)
    ensures
        r@ == seq![c],
{
    let mut v: Vec<char> = Vec::new();
    v.push(c);
    let r = chars_to_string(&v);
    proof {
        assert(v@ =~= seq![c]);
    }
    r
}

/// Relies on `String`'s `FromIterator` over characters: collecting yields
/// exactly the characters of the source, in order.
#[verifier::external_body]
pub(crate) fn chars_to_string(v: &Vec<char>) -> (r: String)
    ensures
        r@ == v@,
{
    v.iter().collect()
}

/// Element-wise copy of an attribute-value list.
fn copy_datas(v: &Vec<AttrData>) -> (r: Vec<AttrData>)
    ensures
        r@ == v@,
{
    let n = v.len();
    let mut out: Vec<AttrData> = Vec::new();
    let mut i: usize = 0;
    while i < n
        invariant
            n == v@.len(),
            i <= n,
            out@.len() == i,
            forall|q: int| 0 <= q < i ==> out@[q] == v@[q],
        decreases n - i,
    {
        out.push(v[i].clone());
        i += 1;
    }
    proof {
        assert(out@ =~= v@);
    }
    out
}

} // verus!
