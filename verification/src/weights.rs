use vstd::prelude::*;

verus! {

/// How often each tile `t` occurs: the weight of the last entry whose key is
/// `t`, or 0 when no entry has that key.
pub open spec fn wt_lookup(s: Seq<(i16, u64)>, t: i16) -> int
    decreases s.len(),
{
    if s.len() == 0 {
        0
    } else if s.last().0 == t {
        s.last().1 as int
    } else {
        wt_lookup(s.drop_last(), t)
    }
}

/// The sum of all weights of the table.
pub open spec fn wt_sum(s: Seq<(i16, u64)>) -> int
    decreases s.len(),
{
    if s.len() == 0 {
        0
    } else {
        wt_sum(s.drop_last()) + s.last().1
    }
}

/// A frequency table mapping tile identifiers to positive occurrence counts.
#[derive(Debug, Clone)]
pub struct WeightTable {
    pub entries: Vec<(i16, u64)>,
}

impl WeightTable {
    /// Keys are pairwise distinct and every weight is at least 1.
    pub open spec fn wf(self) -> bool {
        &&& forall|k1: int, k2: int|
            0 <= k1 < k2 < self.entries@.len() ==> (#[trigger] self.entries@[k1]).0 != (
            #[trigger] self.entries@[k2]).0
        &&& forall|k: int| 0 <= k < self.entries@.len() ==> (#[trigger] self.entries@[k]).1 >= 1
    }

    /// The weight recorded for tile `t`; 0 when `t` has no entry.
    pub open spec fn lookup(self, t: i16) -> int {
        wt_lookup(self.entries@, t)
    }

    /// The sum of all recorded weights.
    pub open spec fn total(self) -> int {
        wt_sum(self.entries@)
    }

    /// Tile `t` has an entry.
    pub open spec fn contains_key(self, t: i16) -> bool {
        exists|k: int| 0 <= k < self.entries@.len() && (#[trigger] self.entries@[k]).0 == t
    }

    /// The keys of the table, in entry order.
    pub open spec fn key_seq(self) -> Seq<i16> {
        self.entries@.map_values(|e: (i16, u64)| e.0)
    }

    /// An empty table.
    pub fn new() -> (r: WeightTable)
        ensures
            r.wf(),
            r.entries@.len() == 0,
            r.total() == 0,
            forall|t: i16| r.lookup(t) == 0,
            forall|t: i16| !r.contains_key(t),
    {
        WeightTable { entries: Vec::new() }
    }

    /// The weight of tile `t`, 0 if absent.
    pub fn weight_of(&self, t: i16) -> (r: u64)
        requires
            self.wf(),
        ensures
            r as int == self.lookup(t),
    {
        let mut k: usize = 0;
        while k < self.entries.len()
            invariant
                self.wf(),
                k <= self.entries@.len(),
                forall|m: int| 0 <= m < k ==> (#[trigger] self.entries@[m]).0 != t,
            decreases self.entries@.len() - k,
        {
            let e = self.entries[k];
            if e.0 == t {
                proof {
                    lemma_wt_lookup_at(self.entries@, t, k as int);
                }
                return e.1;
            }
            k = k + 1;
        }
        proof {
            lemma_wt_lookup_absent(self.entries@, t);
        }
        0
    }

    /// The keys of the table, in entry order.
    pub fn keys_vec(&self) -> (r: Vec<i16>)
        ensures
            r@ == self.key_seq(),
    {
        let mut r: Vec<i16> = Vec::new();
        let mut k: usize = 0;
        while k < self.entries.len()
            invariant
                k <= self.entries@.len(),
                r@.len() == k,
                forall|m: int| 0 <= m < k ==> r@[m] == (#[trigger] self.entries@[m]).0,
            decreases self.entries@.len() - k,
        {
            r.push(self.entries[k].0);
            k = k + 1;
        }
        proof {
            assert(r@ =~= self.key_seq());
        }
        r
    }

    /// Record one more occurrence of tile `t`.
    pub(crate) fn bump(&mut self, t: i16)
        requires
            old(self).wf(),
            old(self).total() < u64::MAX,
        ensures
            final(self).wf(),
            final(self).lookup(t) == old(self).lookup(t) + 1,
            forall|x: i16| x != t ==> final(self).lookup(x) == old(self).lookup(x),
            final(self).total() == old(self).total() + 1,
            forall|x: i16|
                final(self).contains_key(x) <==> (old(self).contains_key(x) || x == t),
    {
        proof {
            lemma_wt_entry_le_sum(self.entries@);
        }
        let mut k: usize = 0;
        while k < self.entries.len()
            invariant
                *self == *old(self),
                self.wf(),
                k <= self.entries@.len(),
                forall|m: int| 0 <= m < k ==> (#[trigger] self.entries@[m]).0 != t,
                self.total() < u64::MAX,
                forall|m: int|
                    0 <= m < self.entries@.len() ==> (#[trigger] self.entries@[m]).1 as int
                        <= self.total(),
            decreases self.entries@.len() - k,
        {
            let e = self.entries[k];
            if e.0 == t {
                let ghost pre = self.entries@;
                self.entries[k] = (t, e.1 + 1);
                proof {
                    lemma_wt_update(pre, k as int, (t, (e.1 + 1) as u64));
                    lemma_wt_lookup_at(pre, t, k as int);
                    lemma_wt_lookup_at(self.entries@, t, k as int);
                    assert forall|x: i16|
                        self.contains_key(x) <==> (old(self).contains_key(x) || x == t) by {
                        if old(self).contains_key(x) {
                            let m = choose|m: int| 0 <= m < pre.len() && (#[trigger] pre[m]).0 == x;
                            assert((self.entries@[m]).0 == x);
                        }
                        if self.contains_key(x) {
                            let m = choose|m: int|
                                0 <= m < self.entries@.len() && (#[trigger] self.entries@[m]).0
                                    == x;
                            assert((pre[m]).0 == x || x == t);
                        }
                        if x == t {
                            assert((self.entries@[k as int]).0 == x);
                        }
                    }
                }
                return ;
            }
            k = k + 1;
        }
        let ghost pre = self.entries@;
        self.entries.push((t, 1));
        proof {
            assert(self.entries@.drop_last() =~= pre);
            assert forall|x: i16| x != t implies self.lookup(x) == wt_lookup(pre, x) by {}
            lemma_wt_lookup_absent(pre, t);
            assert forall|x: i16|
                self.contains_key(x) <==> (old(self).contains_key(x) || x == t) by {
                if self.contains_key(x) {
                    let m = choose|m: int|
                        0 <= m < self.entries@.len() && (#[trigger] self.entries@[m]).0 == x;
                    if m < pre.len() {
                        assert((pre[m]).0 == x);
                    }
                }
                if old(self).contains_key(x) {
                    let m = choose|m: int| 0 <= m < pre.len() && (#[trigger] pre[m]).0 == x;
                    assert((self.entries@[m]).0 == x);
                }
                if x == t {
                    assert((self.entries@[pre.len() as int]).0 == x);
                }
            }
        }
    }
}

/// With pairwise-distinct keys, the lookup of `t` is the weight of the one
/// entry whose key is `t`.
pub proof fn lemma_wt_lookup_at(s: Seq<(i16, u64)>, t: i16, k: int)
    requires
        0 <= k < s.len(),
        s[k].0 == t,
        forall|k1: int, k2: int|
            0 <= k1 < k2 < s.len() ==> (#[trigger] s[k1]).0 != (#[trigger] s[k2]).0,
    ensures
        wt_lookup(s, t) == s[k].1 as int,
    decreases s.len(),
{
    if s.len() > 0 {
        if k == s.len() - 1 {
            assert(s.last().0 == t);
        } else {
            assert(s.last().0 != t);
            assert(s.drop_last()[k] == s[k]);
            lemma_wt_lookup_at(s.drop_last(), t, k);
        }
    }
}

/// If no entry's key is `t`, the lookup of `t` is 0.
pub proof fn lemma_wt_lookup_absent(s: Seq<(i16, u64)>, t: i16)
    requires
        forall|m: int| 0 <= m < s.len() ==> (#[trigger] s[m]).0 != t,
    ensures
        wt_lookup(s, t) == 0,
    decreases s.len(),
{
    if s.len() > 0 {
        lemma_wt_lookup_absent(s.drop_last(), t);
    }
}

/// Updating the entry at `k` changes the sum by the difference of the weights
/// and the lookup only at that entry's key.
pub proof fn lemma_wt_update(s: Seq<(i16, u64)>, k: int, e: (i16, u64))
    requires
        0 <= k < s.len(),
        e.0 == s[k].0,
    ensures
        wt_sum(s.update(k, e)) == wt_sum(s) - s[k].1 + e.1,
        forall|x: i16| x != e.0 ==> wt_lookup(s.update(k, e), x) == wt_lookup(s, x),
    decreases s.len(),
{
    let s2 = s.update(k, e);
    if k == s.len() - 1 {
        assert(s2.drop_last() =~= s.drop_last());
        assert(s2.last() == e);
    } else {
        assert(s2.drop_last() =~= s.drop_last().update(k, e));
        assert(s2.last() == s.last());
        assert(s.drop_last()[k] == s[k]);
        lemma_wt_update(s.drop_last(), k, e);
        assert forall|x: i16| x != e.0 implies wt_lookup(s2, x) == wt_lookup(s, x) by {
            assert(wt_lookup(s2.drop_last(), x) == wt_lookup(s.drop_last(), x));
        }
    }
}

/// Every weight is at most the total, since all weights are non-negative.
pub proof fn lemma_wt_entry_le_sum(s: Seq<(i16, u64)>)
    ensures
        forall|m: int| 0 <= m < s.len() ==> (#[trigger] s[m]).1 as int <= wt_sum(s),
    decreases s.len(),
{
    if s.len() > 0 {
        lemma_wt_entry_le_sum(s.drop_last());
        lemma_wt_sum_nonneg(s.drop_last());
        assert forall|m: int| 0 <= m < s.len() implies (#[trigger] s[m]).1 as int <= wt_sum(s) by {
            if m < s.len() - 1 {
                assert(s.drop_last()[m] == s[m]);
            }
        }
    }
}

/// A lookup is never negative.
pub proof fn lemma_wt_lookup_nonneg(s: Seq<(i16, u64)>, t: i16)
    ensures
        wt_lookup(s, t) >= 0,
    decreases s.len(),
{
    if s.len() > 0 {
        lemma_wt_lookup_nonneg(s.drop_last(), t);
    }
}

/// The total of a table is never negative.
pub proof fn lemma_wt_sum_nonneg(s: Seq<(i16, u64)>)
    ensures
        wt_sum(s) >= 0,
    decreases s.len(),
{
    if s.len() > 0 {
        lemma_wt_sum_nonneg(s.drop_last());
    }
}

} // verus!
