//! A statistics table: a mapping from station name to `Stat`.
//!
//! The table is a pair of parallel vectors with pairwise-distinct keys;
//! its model is a `Map` from name to `GStat`.  `record` folds one
//! observation in; `insert_merge` folds a whole accumulator in while
//! keeping the keys sorted in byte-lexicographic order.

use vstd::prelude::*;

use crate::lex::bytes_eq;
use crate::lex::lex_less;
use crate::lex::lex_lt;
use crate::lex::lemma_lex_asymmetric;
use crate::lex::lemma_lex_connex;
use crate::lex::lemma_lex_transitive;
use crate::stat::GStat;
use crate::stat::Stat;
use crate::stat::g_merge;
use crate::stat::g_single;
use crate::stat::g_wf;

verus! {

/// Fold the statistics `g` into `m` at key `k`.
pub open spec fn upsert(m: Map<Seq<u8>, GStat>, k: Seq<u8>, g: GStat) -> Map<Seq<u8>, GStat> {
    if m.contains_key(k) {
        m.insert(k, g_merge(m[k], g))
    } else {
        m.insert(k, g)
    }
}

/// Station names and their statistics, kept in two parallel vectors.
pub struct Table {
    pub names: Vec<Vec<u8>>,
    pub stats: Vec<Stat>,
}

impl View for Table {
    type V = Map<Seq<u8>, GStat>;

    open spec fn view(&self) -> Map<Seq<u8>, GStat> {
        self.map_prefix(self.len())
    }
}

impl Table {
    pub open spec fn len(self) -> int {
        self.names@.len() as int
    }

    pub open spec fn key_at(self, i: int) -> Seq<u8> {
        self.names@[i]@
    }

    pub open spec fn stat_at(self, i: int) -> GStat {
        self.stats@[i]@
    }

    /// The mapping held by the first `n` entries (later entries win,
    /// which is irrelevant once keys are distinct).
    pub open spec fn map_prefix(self, n: int) -> Map<Seq<u8>, GStat>
        decreases n,
    {
        if n <= 0 {
            Map::empty()
        } else {
            self.map_prefix(n - 1).insert(self.key_at(n - 1), self.stat_at(n - 1))
        }
    }

    /// Total observation count of the first `n` entries.
    pub open spec fn count_prefix(self, n: int) -> int
        decreases n,
    {
        if n <= 0 {
            0
        } else {
            self.count_prefix(n - 1) + self.stat_at(n - 1).count
        }
    }

    /// Total observation count of the whole table.
    pub open spec fn count_sum(self) -> int {
        self.count_prefix(self.len())
    }

    pub open spec fn unique_keys(self) -> bool {
        forall|i: int, j: int|
            0 <= i < j < self.len() ==> #[trigger] self.key_at(i) != #[trigger] self.key_at(j)
    }

    /// Parallel vectors of equal length, distinct keys, well-formed stats.
    pub open spec fn wf(self) -> bool {
        &&& self.names@.len() == self.stats@.len()
        &&& self.unique_keys()
        &&& forall|i: int| 0 <= i < self.len() ==> g_wf(#[trigger] self.stat_at(i))
    }

    /// Keys strictly increasing in byte-lexicographic order.
    pub open spec fn sorted(self) -> bool {
        forall|i: int, j: int|
            0 <= i < j < self.len() ==> lex_lt(
                #[trigger] self.key_at(i),
                #[trigger] self.key_at(j),
            )
    }
}

/// Strictly sorted keys are pairwise distinct.
pub proof fn lemma_sorted_unique(t: Table)
    requires
        t.sorted(),
    ensures
        t.unique_keys(),
{
    assert forall|i: int, j: int| 0 <= i < j < t.len() implies #[trigger] t.key_at(i)
        != #[trigger] t.key_at(j) by {
        lemma_lex_asymmetric(t.key_at(i), t.key_at(j));
    }
}

/// Membership in a prefix mapping is existence of an entry.
pub proof fn lemma_map_prefix_contains_key(t: Table, n: int, k: Seq<u8>)
    ensures
        t.map_prefix(n).contains_key(k) <==> exists|i: int| 0 <= i < n && #[trigger] t.key_at(i)
            == k,
    decreases n,
{
    if n > 0 {
        lemma_map_prefix_contains_key(t, n - 1, k);
        if t.map_prefix(n).contains_key(k) {
            if k == t.key_at(n - 1) {
                assert(0 <= n - 1 < n && t.key_at(n - 1) == k);
            }
        }
        if exists|i: int| 0 <= i < n && #[trigger] t.key_at(i) == k {
            let i = choose|i: int| 0 <= i < n && #[trigger] t.key_at(i) == k;
            if i < n - 1 {
                assert(t.map_prefix(n - 1).contains_key(k));
            }
        }
    }
}

/// An entry whose key does not recur later gives the mapping's value.
pub proof fn lemma_map_prefix_value(t: Table, n: int, i: int)
    requires
        0 <= i < n,
        forall|j: int| i < j < n ==> #[trigger] t.key_at(j) != t.key_at(i),
    ensures
        t.map_prefix(n).contains_key(t.key_at(i)),
        t.map_prefix(n)[t.key_at(i)] == t.stat_at(i),
    decreases n,
{
    if i < n - 1 {
        lemma_map_prefix_value(t, n - 1, i);
    }
}

/// Tables equal entry-by-entry below `n` have the same prefix mapping.
pub proof fn lemma_map_prefix_agree(t1: Table, t2: Table, n: int)
    requires
        forall|j: int| 0 <= j < n ==> #[trigger] t1.key_at(j) == t2.key_at(j),
        forall|j: int| 0 <= j < n ==> #[trigger] t1.stat_at(j) == t2.stat_at(j),
    ensures
        t1.map_prefix(n) == t2.map_prefix(n),
    decreases n,
{
    if n > 0 {
        lemma_map_prefix_agree(t1, t2, n - 1);
    }
}

/// Replacing the statistics of one entry updates the mapping at its key.
pub proof fn lemma_map_prefix_update(t1: Table, t2: Table, n: int, i: int)
    requires
        0 <= i < n,
        forall|j: int| 0 <= j < n ==> #[trigger] t1.key_at(j) == t2.key_at(j),
        forall|j: int| 0 <= j < n && j != i ==> #[trigger] t1.stat_at(j) == t2.stat_at(j),
        forall|j: int| i < j < n ==> #[trigger] t1.key_at(j) != t1.key_at(i),
    ensures
        t2.map_prefix(n) == t1.map_prefix(n).insert(t1.key_at(i), t2.stat_at(i)),
    decreases n,
{
    if i == n - 1 {
        lemma_map_prefix_agree(t1, t2, n - 1);
        assert(t1.map_prefix(n).insert(t1.key_at(i), t2.stat_at(i)) =~= t2.map_prefix(n));
    } else {
        lemma_map_prefix_update(t1, t2, n - 1, i);
        assert(t1.map_prefix(n).insert(t1.key_at(i), t2.stat_at(i)) =~= t2.map_prefix(n));
    }
}

/// Inserting a fresh entry at position `i` updates the mapping at its key.
pub proof fn lemma_map_prefix_insert(t1: Table, t2: Table, i: int, n: int)
    requires
        0 <= i <= n,
        forall|j: int| 0 <= j < i ==> #[trigger] t2.key_at(j) == t1.key_at(j),
        forall|j: int| 0 <= j < i ==> #[trigger] t2.stat_at(j) == t1.stat_at(j),
        forall|j: int| i <= j < n ==> #[trigger] t2.key_at(j + 1) == t1.key_at(j),
        forall|j: int| i <= j < n ==> #[trigger] t2.stat_at(j + 1) == t1.stat_at(j),
        forall|j: int| 0 <= j < n ==> #[trigger] t1.key_at(j) != t2.key_at(i),
    ensures
        t2.map_prefix(n + 1) == t1.map_prefix(n).insert(t2.key_at(i), t2.stat_at(i)),
    decreases n,
{
    if n == i {
        lemma_map_prefix_agree(t1, t2, i);
    } else {
        lemma_map_prefix_insert(t1, t2, i, n - 1);
        assert(t2.key_at(n) == t1.key_at(n - 1));
        assert(t2.stat_at(n) == t1.stat_at(n - 1));
        assert(t1.map_prefix(n).insert(t2.key_at(i), t2.stat_at(i)) =~= t2.map_prefix(n + 1));
    }
}

/// Counts are non-negative and every entry's count is within the total.
pub proof fn lemma_count_prefix_le(t: Table, n: int, i: int)
    requires
        0 <= i < n,
    ensures
        t.stat_at(i).count <= t.count_prefix(n),
    decreases n,
{
    lemma_count_prefix_nonneg(t, n - 1);
    if i < n - 1 {
        lemma_count_prefix_le(t, n - 1, i);
    }
}

pub proof fn lemma_count_prefix_nonneg(t: Table, n: int)
    ensures
        0 <= t.count_prefix(n),
    decreases n,
{
    if n > 0 {
        lemma_count_prefix_nonneg(t, n - 1);
    }
}

/// Tables equal entry-by-entry below `n` have the same prefix count.
pub proof fn lemma_count_prefix_agree(t1: Table, t2: Table, n: int)
    requires
        forall|j: int| 0 <= j < n ==> #[trigger] t1.stat_at(j) == t2.stat_at(j),
    ensures
        t1.count_prefix(n) == t2.count_prefix(n),
    decreases n,
{
    if n > 0 {
        lemma_count_prefix_agree(t1, t2, n - 1);
    }
}

/// Replacing one entry's statistics shifts the total by the difference.
pub proof fn lemma_count_prefix_update(t1: Table, t2: Table, n: int, i: int)
    requires
        0 <= i < n,
        forall|j: int| 0 <= j < n && j != i ==> #[trigger] t1.stat_at(j) == t2.stat_at(j),
    ensures
        t2.count_prefix(n) == t1.count_prefix(n) - t1.stat_at(i).count + t2.stat_at(i).count,
    decreases n,
{
    if i == n - 1 {
        lemma_count_prefix_agree(t1, t2, n - 1);
    } else {
        lemma_count_prefix_update(t1, t2, n - 1, i);
    }
}

/// Inserting an entry at position `i` adds its count to the total.
pub proof fn lemma_count_prefix_insert(t1: Table, t2: Table, i: int, n: int)
    requires
        0 <= i <= n,
        forall|j: int| 0 <= j < i ==> #[trigger] t2.stat_at(j) == t1.stat_at(j),
        forall|j: int| i <= j < n ==> #[trigger] t2.stat_at(j + 1) == t1.stat_at(j),
    ensures
        t2.count_prefix(n + 1) == t1.count_prefix(n) + t2.stat_at(i).count,
    decreases n,
{
    if n == i {
        lemma_count_prefix_agree(t1, t2, i);
    } else {
        lemma_count_prefix_insert(t1, t2, i, n - 1);
        assert(t2.stat_at(n) == t1.stat_at(n - 1));
    }
}

impl Table {
    /// The empty table.
    pub fn new() -> (t: Table)
        ensures
            t.wf(),
            t.sorted(),
            t.len() == 0,
            t@ == Map::<Seq<u8>, GStat>::empty(),
            t.count_sum() == 0,
    {
        Table { names: Vec::new(), stats: Vec::new() }
    }

    /// Position of `name` in the table, if present.
    fn find_idx(&self, name: &[u8]) -> (r: Option<usize>)
        requires
            self.names@.len() == self.stats@.len(),
        ensures
            match r {
                Some(i) => 0 <= i < self.len() && self.key_at(i as int) == name@,
                None => forall|i: int| 0 <= i < self.len() ==> #[trigger] self.key_at(i) != name@,
            },
    {
        let n = self.names.len();
        let mut i: usize = 0;
        while i < n
            invariant
                0 <= i <= n,
                n == self.names@.len(),
                forall|j: int| 0 <= j < i ==> #[trigger] self.key_at(j) != name@,
            decreases n - i,
        {
            if bytes_eq(self.names[i].as_slice(), name) {
                return Some(i);
            }
            i = i + 1;
        }
        None
    }

    /// Fold one observation of `name` into the table.
    pub fn record(&mut self, name: &[u8], temp: i16)
        requires
            old(self).wf(),
            -999 <= temp <= 999,
            old(self).count_sum() < u32::MAX,
        ensures
            final(self).wf(),
            final(self)@ == upsert(old(self)@, name@, g_single(temp as int)),
            final(self).count_sum() == old(self).count_sum() + 1,
    {
        let ghost t0 = *old(self);
        match self.find_idx(name) {
            Some(i) => {
                proof {
                    lemma_map_prefix_value(t0, t0.len(), i as int);
                    lemma_count_prefix_le(t0, t0.len(), i as int);
                }
                let mut s = self.stats[i];
                s.update(temp);
                self.stats[i] = s;
                proof {
                    assert forall|j: int| 0 <= j < t0.len() implies #[trigger] self.key_at(j)
                        == t0.key_at(j) by {}
                    assert forall|j: int| 0 <= j < t0.len() && j != i as int implies #[trigger]
                    self.stat_at(j) == t0.stat_at(j) by {}
                    assert(self.stat_at(i as int) == s@);
                    lemma_map_prefix_update(t0, *self, t0.len(), i as int);
                    lemma_count_prefix_update(t0, *self, t0.len(), i as int);
                    assert(t0@.contains_key(name@));
                    assert forall|j: int| 0 <= j < self.len() implies g_wf(
                        #[trigger] self.stat_at(j),
                    ) by {
                        if j != i as int {
                            assert(self.stat_at(j) == t0.stat_at(j));
                        }
                    }
                    assert forall|p: int, q: int| 0 <= p < q < self.len() implies #[trigger]
                    self.key_at(p) != #[trigger] self.key_at(q) by {
                        assert(self.key_at(p) == t0.key_at(p));
                        assert(self.key_at(q) == t0.key_at(q));
                    }
                }
            },
            None => {
                proof {
                    lemma_map_prefix_contains_key(t0, t0.len(), name@);
                }
                self.names.push(vstd::slice::slice_to_vec(name));
                self.stats.push(Stat::new(temp));
                proof {
                    let n = t0.len();
                    assert forall|j: int| 0 <= j < n implies #[trigger] self.key_at(j)
                        == t0.key_at(j) && #[trigger] self.stat_at(j) == t0.stat_at(j) by {}
                    lemma_map_prefix_agree(t0, *self, n);
                    lemma_count_prefix_agree(t0, *self, n);
                    assert(self.key_at(n) == name@);
                    assert(self.stat_at(n) == g_single(temp as int));
                    assert(self.map_prefix(n + 1) == t0@.insert(name@, g_single(temp as int)));
                    assert forall|j: int| 0 <= j < self.len() implies g_wf(
                        #[trigger] self.stat_at(j),
                    ) by {
                        if j < n {
                            assert(self.stat_at(j) == t0.stat_at(j));
                        }
                    }
                    assert forall|p: int, q: int| 0 <= p < q < self.len() implies #[trigger]
                    self.key_at(p) != #[trigger] self.key_at(q) by {
                        assert(self.key_at(p) == t0.key_at(p));
                        if q < n {
                            assert(self.key_at(q) == t0.key_at(q));
                        } else {
                            assert(self.key_at(q) == name@);
                            assert(t0.key_at(p) != name@);
                        }
                    }
                }
            },
        }
    }

    /// Fold a whole accumulator for `name` into the table, keeping the
    /// keys sorted.
    pub fn insert_merge(&mut self, name: &[u8], st: Stat)
        requires
            old(self).wf(),
            old(self).sorted(),
            g_wf(st@),
            old(self).count_sum() + st.count <= u32::MAX,
        ensures
            final(self).wf(),
            final(self).sorted(),
            final(self)@ == upsert(old(self)@, name@, st@),
            final(self).count_sum() == old(self).count_sum() + st.count,
    {
        let ghost t0 = *old(self);
        let n = self.names.len();
        let mut i: usize = 0;
        let mut found_ge = false;
        while !found_ge && i < n
            invariant
                0 <= i <= n,
                n == self.names@.len(),
                self.names@.len() == self.stats@.len(),
                *self == t0,
                forall|j: int| 0 <= j < i ==> lex_lt(#[trigger] self.key_at(j), name@),
                found_ge ==> i < n && !lex_lt(self.key_at(i as int), name@),
            decreases n - i + (if found_ge {
                0int
            } else {
                1int
            }),
        {
            if lex_less(self.names[i].as_slice(), name) {
                i = i + 1;
            } else {
                found_ge = true;
            }
        }
        let hit = if i < n {
            bytes_eq(self.names[i].as_slice(), name)
        } else {
            false
        };
        if hit {
            proof {
                lemma_map_prefix_value(t0, t0.len(), i as int);
                lemma_count_prefix_le(t0, t0.len(), i as int);
            }
            let mut s = self.stats[i];
            s.merge(&st);
            self.stats[i] = s;
            proof {
                assert forall|j: int| 0 <= j < t0.len() implies #[trigger] self.key_at(j)
                    == t0.key_at(j) by {}
                assert forall|j: int| 0 <= j < t0.len() && j != i as int implies #[trigger]
                self.stat_at(j) == t0.stat_at(j) by {}
                assert(self.stat_at(i as int) == s@);
                lemma_map_prefix_update(t0, *self, t0.len(), i as int);
                lemma_count_prefix_update(t0, *self, t0.len(), i as int);
                assert(t0@.contains_key(name@));
                assert forall|j: int| 0 <= j < self.len() implies g_wf(
                    #[trigger] self.stat_at(j),
                ) by {
                    if j != i as int {
                        assert(self.stat_at(j) == t0.stat_at(j));
                    }
                }
                assert forall|p: int, q: int| 0 <= p < q < self.len() implies lex_lt(
                    #[trigger] self.key_at(p),
                    #[trigger] self.key_at(q),
                ) by {
                    assert(self.key_at(p) == t0.key_at(p));
                    assert(self.key_at(q) == t0.key_at(q));
                }
                lemma_sorted_unique(*self);
            }
        } else {
            proof {
                // `name` is strictly between its neighbours, hence fresh.
                if i < t0.len() {
                    lemma_lex_connex(t0.key_at(i as int), name@);
                }
                assert forall|j: int| 0 <= j < t0.len() implies #[trigger] t0.key_at(j)
                    != name@ by {
                    if j < i {
                        lemma_lex_asymmetric(t0.key_at(j), name@);
                    } else if j > i {
                        lemma_lex_transitive(name@, t0.key_at(i as int), t0.key_at(j));
                        lemma_lex_asymmetric(name@, t0.key_at(j));
                    } else {
                        lemma_lex_asymmetric(name@, t0.key_at(j));
                    }
                }
                lemma_map_prefix_contains_key(t0, t0.len(), name@);
            }
            let new_name = vstd::slice::slice_to_vec(name);
            let ghost gname: Vec<u8> = new_name;
            self.names.insert(i, new_name);
            self.stats.insert(i, st);
            proof {
                let nn = t0.len();
                t0.names@.insert_ensures(i as int, gname);
                t0.stats@.insert_ensures(i as int, st);
                assert(self.names@ == t0.names@.insert(i as int, gname));
                assert(self.stats@ == t0.stats@.insert(i as int, st));
                assert(self.key_at(i as int) == name@);
                assert(self.stat_at(i as int) == st@);
                assert forall|j: int| 0 <= j < i as int implies #[trigger] self.key_at(j)
                    == t0.key_at(j) && #[trigger] self.stat_at(j) == t0.stat_at(j) by {
                    assert(self.names@[j] == t0.names@[j]);
                    assert(self.stats@[j] == t0.stats@[j]);
                }
                assert forall|j: int| i as int <= j < nn implies #[trigger] self.key_at(j + 1)
                    == t0.key_at(j) && #[trigger] self.stat_at(j + 1) == t0.stat_at(j) by {
                    assert(self.names@[j + 1] == t0.names@[j]);
                    assert(self.stats@[j + 1] == t0.stats@[j]);
                }
                lemma_map_prefix_insert(t0, *self, i as int, nn);
                lemma_count_prefix_insert(t0, *self, i as int, nn);
                assert forall|j: int| 0 <= j < self.len() implies g_wf(
                    #[trigger] self.stat_at(j),
                ) by {
                    if j < i as int {
                        assert(self.stat_at(j) == t0.stat_at(j));
                    } else if j > i as int {
                        assert(self.stat_at(j) == t0.stat_at(j - 1));
                    }
                }
                // Sortedness of the extended table.
                assert forall|p: int, q: int| 0 <= p < q < self.len() implies lex_lt(
                    #[trigger] self.key_at(p),
                    #[trigger] self.key_at(q),
                ) by {
                    let ii = i as int;
                    if p < ii && q < ii {
                        assert(self.key_at(p) == t0.key_at(p));
                        assert(self.key_at(q) == t0.key_at(q));
                        assert(lex_lt(t0.key_at(p), t0.key_at(q)));
                    } else if q == ii {
                        assert(self.key_at(p) == t0.key_at(p));
                        assert(self.key_at(q) == name@);
                        assert(lex_lt(t0.key_at(p), name@));
                    } else if p == ii {
                        assert(self.key_at(p) == name@);
                        assert(self.key_at(q) == t0.key_at(q - 1));
                        assert(lex_lt(name@, t0.key_at(ii)));
                        if q - 1 > ii {
                            lemma_lex_transitive(name@, t0.key_at(ii), t0.key_at(q - 1));
                        }
                    } else if p < ii {
                        assert(self.key_at(p) == t0.key_at(p));
                        assert(self.key_at(q) == t0.key_at(q - 1));
                        if q - 1 == ii {
                            assert(lex_lt(t0.key_at(p), name@));
                            lemma_lex_transitive(t0.key_at(p), name@, t0.key_at(ii));
                        } else {
                            assert(lex_lt(t0.key_at(p), t0.key_at(q - 1)));
                        }
                    } else {
                        assert(p > ii && q > ii);
                        assert(self.key_at(p) == t0.key_at(p - 1));
                        assert(self.key_at(q) == t0.key_at(q - 1));
                        assert(lex_lt(t0.key_at(p - 1), t0.key_at(q - 1)));
                    }
                }
                lemma_sorted_unique(*self);
            }
        }
    }
}

} // verus!
