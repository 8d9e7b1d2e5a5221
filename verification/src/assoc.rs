//! Association sequences: lookup by key over a sequence of key-payload
//! pairs with pairwise-distinct keys.  Both index containers and the
//! per-range value store use these spec functions as their lookup model.

use vstd::prelude::*;

verus! {

/// Index of the first pair keyed by `k`, or `-1` when no pair is.
pub open spec fn assoc_idx<K, V>(m: Seq<(K, V)>, k: K) -> int
    decreases m.len(),
{
    if m.len() == 0 {
        -1
    } else if m[0].0 == k {
        0
    } else {
        let r = assoc_idx(m.drop_first(), k);
        if r < 0 {
            -1
        } else {
            r + 1
        }
    }
}

/// Whether some pair is keyed by `k`.
pub open spec fn assoc_has<K, V>(m: Seq<(K, V)>, k: K) -> bool {
    assoc_idx(m, k) >= 0
}

/// The payload stored under `k`, or `d` when no pair is keyed by `k`.
pub open spec fn assoc_get<K, V>(m: Seq<(K, V)>, k: K, d: V) -> V {
    if assoc_has(m, k) {
        m[assoc_idx(m, k)].1
    } else {
        d
    }
}

/// The keys of the pairs are pairwise distinct.
pub open spec fn assoc_distinct<K, V>(m: Seq<(K, V)>) -> bool {
    forall|i: int, j: int| 0 <= i < j < m.len() ==> (#[trigger] m[i]).0 != (#[trigger] m[j]).0
}

/// The first index keyed by `k` lies within the sequence and carries `k`.
pub proof fn lemma_assoc_idx_in_bounds<K, V>(m: Seq<(K, V)>, k: K)
    ensures
        -1 <= assoc_idx(m, k) < m.len(),
        assoc_idx(m, k) >= 0 ==> m[assoc_idx(m, k)].0 == k,
        assoc_idx(m, k) < 0 ==> forall|i: int| 0 <= i < m.len() ==> (#[trigger] m[i]).0 != k,
    decreases m.len(),
{
    if m.len() > 0 && m[0].0 != k {
        lemma_assoc_idx_in_bounds(m.drop_first(), k);
        assert forall|i: int| 0 <= i < m.len() && assoc_idx(m, k) < 0 implies (#[trigger] m[i]).0
            != k by {
            if i > 0 {
                assert(m.drop_first()[i - 1] == m[i]);
            }
        }
    }
}

/// A linear scan that stops at `i` has found the first index keyed by `k`,
/// or exhausted the sequence.
pub proof fn lemma_assoc_idx_first<K, V>(m: Seq<(K, V)>, k: K, i: int)
    requires
        0 <= i <= m.len(),
        forall|j: int| 0 <= j < i ==> (#[trigger] m[j]).0 != k,
        i < m.len() ==> m[i].0 == k,
    ensures
        assoc_idx(m, k) == if i < m.len() {
            i
        } else {
            -1
        },
    decreases m.len(),
{
    if m.len() > 0 {
        if m[0].0 == k {
        } else {
            assert(i > 0);
            let md = m.drop_first();
            assert forall|j: int| 0 <= j < i - 1 implies (#[trigger] md[j]).0 != k by {
                assert(md[j] == m[j + 1]);
            }
            if i - 1 < md.len() {
                assert(md[i - 1] == m[i]);
            }
            lemma_assoc_idx_first(md, k, i - 1);
        }
    }
}

/// Under distinct keys, any index carrying `k` is the one `assoc_idx` finds.
pub proof fn lemma_assoc_idx_unique<K, V>(m: Seq<(K, V)>, i: int)
    requires
        assoc_distinct(m),
        0 <= i < m.len(),
    ensures
        assoc_idx(m, m[i].0) == i,
    decreases m.len(),
{
    let k = m[i].0;
    lemma_assoc_idx_in_bounds(m, k);
    let j = assoc_idx(m, k);
    assert(j >= 0);
    if j < i {
        assert(m[j].0 == m[i].0);
        assert(false);
    } else if j > i {
        assert(m[i].0 == m[j].0);
        assert(false);
    }
}

/// How lookup behaves once a pair is appended.
pub proof fn lemma_assoc_push<K, V>(m: Seq<(K, V)>, e: (K, V), k: K)
    ensures
        assoc_idx(m.push(e), k) == if assoc_has(m, k) {
            assoc_idx(m, k)
        } else if e.0 == k {
            m.len() as int
        } else {
            -1
        },
    decreases m.len(),
{
    let mp = m.push(e);
    if m.len() == 0 {
        assert(assoc_idx(m, k) == -1);
        assert(mp.len() == 1);
        assert(mp[0] == e);
        if mp[0].0 != k {
            assert(mp.drop_first() =~= Seq::<(K, V)>::empty());
            assert(assoc_idx(mp.drop_first(), k) == -1);
            assert(assoc_idx(mp, k) == -1);
        } else {
            assert(assoc_idx(mp, k) == 0);
        }
    } else {
        assert(mp[0] == m[0]);
        if m[0].0 != k {
            assert(mp.drop_first() =~= m.drop_first().push(e));
            lemma_assoc_push(m.drop_first(), e, k);
        }
    }
}

/// How lookup behaves once the payload at a held index is replaced.
pub proof fn lemma_assoc_update<K, V>(m: Seq<(K, V)>, i: int, v: V, k: K)
    requires
        0 <= i < m.len(),
    ensures
        assoc_idx(m.update(i, (m[i].0, v)), k) == assoc_idx(m, k),
    decreases m.len(),
{
    let mu = m.update(i, (m[i].0, v));
    assert(mu.len() == m.len());
    assert(mu[i].0 == m[i].0);
    if i == 0 {
        assert(mu[0].0 == m[0].0);
        if m[0].0 != k {
            assert(mu.drop_first() =~= m.drop_first());
        }
    } else {
        assert(mu[0] == m[0]);
        if m[0].0 != k {
            assert(mu.drop_first() =~= m.drop_first().update(i - 1, (m.drop_first()[i - 1].0, v)));
            lemma_assoc_update(m.drop_first(), i - 1, v, k);
        }
    }
}

} // verus!
