//! A small association list from node innovation ids to fixed-point values,
//! the working store of the feed-forward sweep. Lookups return the first
//! entry with the key; writes overwrite the first entry or append.

use vstd::prelude::*;

verus! {

/// The first index at or after `i` whose entry carries key `k`.
pub open spec fn first_idx_from(m: Seq<(u32, i64)>, k: u32, i: int) -> Option<int>
    decreases m.len() - i,
{
    if i < 0 || i >= m.len() {
        None
    } else if m[i].0 == k {
        Some(i)
    } else {
        first_idx_from(m, k, i + 1)
    }
}

/// The value stored under `k`, if any.
pub open spec fn al_get(m: Seq<(u32, i64)>, k: u32) -> Option<i64> {
    match first_idx_from(m, k, 0) {
        Some(i) => Some(m[i].1),
        None => None,
    }
}

/// The list after storing `v` under `k`: the first entry with key `k` is
/// overwritten, or a new entry is appended.
pub open spec fn al_set(m: Seq<(u32, i64)>, k: u32, v: i64) -> Seq<(u32, i64)> {
    match first_idx_from(m, k, 0) {
        Some(i) => m.update(i, (k, v)),
        None => m.push((k, v)),
    }
}

/// A found index is in bounds and carries the key.
pub proof fn lemma_first_idx_bounds(m: Seq<(u32, i64)>, k: u32, i: int)
    requires
        0 <= i <= m.len(),
        first_idx_from(m, k, i) is Some,
    ensures
        i <= first_idx_from(m, k, i)->Some_0 < m.len(),
        m[first_idx_from(m, k, i)->Some_0].0 == k,
    decreases m.len() - i,
{
    if i < m.len() && m[i].0 != k {
        lemma_first_idx_bounds(m, k, i + 1);
    }
}

/// A scan over entries none of which carries the key finds nothing.
pub proof fn lemma_first_idx_none(m: Seq<(u32, i64)>, k: u32, i: int)
    requires
        0 <= i <= m.len(),
        forall|j: int| i <= j < m.len() ==> (#[trigger] m[j]).0 != k,
    ensures
        first_idx_from(m, k, i) is None,
    decreases m.len() - i,
{
    if i < m.len() {
        lemma_first_idx_none(m, k, i + 1);
    }
}


/// Two lists with the same keys at every index scan identically.
pub proof fn lemma_first_idx_keys_equal(m1: Seq<(u32, i64)>, m2: Seq<(u32, i64)>, k: u32, j: int)
    requires
        m1.len() == m2.len(),
        forall|i: int| 0 <= i < m1.len() ==> (#[trigger] m1[i]).0 == m2[i].0,
    ensures
        first_idx_from(m1, k, j) == first_idx_from(m2, k, j),
    decreases m1.len() - j,
{
    if 0 <= j < m1.len() {
        lemma_first_idx_keys_equal(m1, m2, k, j + 1);
    }
}

/// If some entry at or after `j` carries the key, the scan finds one.
pub proof fn lemma_first_idx_some(m: Seq<(u32, i64)>, k: u32, j: int)
    requires
        0 <= j <= m.len(),
        exists|i: int| j <= i < m.len() && (#[trigger] m[i]).0 == k,
    ensures
        first_idx_from(m, k, j) is Some,
    decreases m.len() - j,
{
    if m[j].0 != k {
        let i = choose|i: int| j <= i < m.len() && (#[trigger] m[i]).0 == k;
        assert(j + 1 <= i < m.len() && m[i].0 == k);
        lemma_first_idx_some(m, k, j + 1);
    }
}

/// A key found before a push is still found after it.
pub proof fn lemma_first_idx_after_push(m: Seq<(u32, i64)>, e: (u32, i64), k: u32, j: int)
    requires
        0 <= j <= m.len(),
        first_idx_from(m, k, j) is Some,
    ensures
        first_idx_from(m.push(e), k, j) is Some,
    decreases m.len() - j,
{
    if j < m.len() {
        assert(m.push(e)[j] == m[j]);
        if m[j].0 != k {
            lemma_first_idx_after_push(m, e, k, j + 1);
        }
    }
}

/// Storing never drops a key.
pub proof fn lemma_al_set_keeps_key(m: Seq<(u32, i64)>, k2: u32, v: i64, k: u32)
    requires
        first_idx_from(m, k, 0) is Some,
    ensures
        first_idx_from(al_set(m, k2, v), k, 0) is Some,
{
    match first_idx_from(m, k2, 0) {
        Some(i) => {
            lemma_first_idx_bounds(m, k2, 0);
            lemma_first_idx_keys_equal(m, m.update(i, (k2, v)), k, 0);
        },
        None => {
            lemma_first_idx_after_push(m, (k2, v), k, 0);
        },
    }
}

/// Storing makes the key present.
pub proof fn lemma_al_set_has_key(m: Seq<(u32, i64)>, k: u32, v: i64)
    ensures
        first_idx_from(al_set(m, k, v), k, 0) is Some,
{
    match first_idx_from(m, k, 0) {
        Some(i) => {
            lemma_first_idx_bounds(m, k, 0);
            lemma_first_idx_keys_equal(m, m.update(i, (k, v)), k, 0);
        },
        None => {
            let m2 = m.push((k, v));
            assert(m2[m.len() as int].0 == k);
            lemma_first_idx_some(m2, k, 0);
        },
    }
}

pub struct ValMap {
    pub entries: Vec<(u32, i64)>,
}

impl ValMap {
    pub fn new() -> (r: Self)
        ensures
            r.entries@ =~= Seq::<(u32, i64)>::empty(),
    {
        ValMap { entries: Vec::new() }
    }

    /// The first index holding key `k`, if any.
    fn find(&self, k: u32) -> (r: Option<usize>)
        ensures
            match r {
                Some(i) => i < self.entries@.len() && first_idx_from(self.entries@, k, 0) == Some(
                    i as int,
                ),
                None => first_idx_from(self.entries@, k, 0) is None,
            },
    {
        let ghost m = self.entries@;
        let mut i: usize = 0;
        while i < self.entries.len()
            invariant
                0 <= i <= m.len(),
                self.entries@ == m,
                first_idx_from(m, k, 0) == first_idx_from(m, k, i as int),
            decreases m.len() - i,
        {
            if self.entries[i].0 == k {
                return Some(i);
            }
            i = i + 1;
        }
        None
    }

    pub fn get(&self, k: u32) -> (r: Option<i64>)
        ensures
            r == al_get(self.entries@, k),
    {
        match self.find(k) {
            Some(i) => Some(self.entries[i].1),
            None => None,
        }
    }

    pub fn set(&mut self, k: u32, v: i64)
        ensures
            final(self).entries@ == al_set(old(self).entries@, k, v),
    {
        match self.find(k) {
            Some(i) => {
                self.entries[i] = (k, v);
            },
            None => {
                self.entries.push((k, v));
            },
        }
    }
}

} // verus!
