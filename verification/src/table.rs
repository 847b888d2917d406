//! A small map from integer keys that keeps its entries in the order in which
//! their keys first came.
use vstd::prelude::*;

verus! {

/// A map from `u64` keys to values. Every key occurs once (see [`Table::wf`]),
/// and a walk over the entries meets them in the order in which they were added.
#[derive(Debug)]
pub struct Table<V> {
    pub entries: Vec<(u64, V)>,
}

/// The position of the entry with key `k`, or the number of entries where there is none.
pub open spec fn slot<V>(s: Seq<(u64, V)>, k: u64) -> int
    decreases s.len(),
{
    if s.len() == 0 {
        0
    } else if s[0].0 == k {
        0
    } else {
        1 + slot(s.drop_first(), k)
    }
}

/// Whether an entry has key `k`.
pub open spec fn has_key<V>(s: Seq<(u64, V)>, k: u64) -> bool {
    exists|i: int| 0 <= i < s.len() && (#[trigger] s[i]).0 == k
}

/// No two entries have the same key.
pub open spec fn keys_distinct<V>(s: Seq<(u64, V)>) -> bool {
    forall|i: int, j: int| 0 <= i < j < s.len() ==> (#[trigger] s[i]).0 != (#[trigger] s[j]).0
}

/// The map that a sequence of entries stands for.
pub open spec fn as_map<V>(s: Seq<(u64, V)>) -> Map<u64, V> {
    Map::new(|k: u64| has_key(s, k), |k: u64| s[slot(s, k)].1)
}

/// `slot` finds the first entry with a key.
pub proof fn lemma_slot<V>(s: Seq<(u64, V)>, k: u64)
    ensures
        0 <= slot(s, k) <= s.len(),
        has_key(s, k) <==> slot(s, k) < s.len(),
        slot(s, k) < s.len() ==> s[slot(s, k)].0 == k,
        forall|i: int| 0 <= i < slot(s, k) ==> (#[trigger] s[i]).0 != k,
    decreases s.len(),
{
    if s.len() > 0 && s[0].0 != k {
        let t = s.drop_first();
        lemma_slot(t, k);
        assert forall|i: int| 0 <= i < slot(s, k) implies (#[trigger] s[i]).0 != k by {
            if i > 0 {
                assert(t[i - 1].0 != k);
            }
        }
        if has_key(s, k) {
            let i = choose|i: int| 0 <= i < s.len() && (#[trigger] s[i]).0 == k;
            assert(t[i - 1].0 == k);
        }
    }
}

/// With distinct keys, an entry is at the slot of its key.
pub proof fn lemma_slot_at<V>(s: Seq<(u64, V)>, i: int)
    requires
        keys_distinct(s),
        0 <= i < s.len(),
    ensures
        slot(s, s[i].0) == i,
        has_key(s, s[i].0),
        as_map(s).dom().contains(s[i].0),
        as_map(s)[s[i].0] == s[i].1,
{
    lemma_slot(s, s[i].0);
}

/// Replacing the value of an entry replaces it in the map.
pub proof fn lemma_update<V>(s: Seq<(u64, V)>, i: int, v: V)
    requires
        0 <= i < s.len(),
        slot(s, s[i].0) == i,
    ensures
        as_map(s.update(i, (s[i].0, v))) == as_map(s).insert(s[i].0, v),
        forall|k: u64| has_key(s.update(i, (s[i].0, v)), k) == has_key(s, k),
        forall|k: u64| slot(s.update(i, (s[i].0, v)), k) == slot(s, k),
{
    let t = s.update(i, (s[i].0, v));
    assert forall|k: u64| has_key(t, k) == has_key(s, k) && slot(t, k) == slot(s, k) by {
        lemma_slot(s, k);
        lemma_slot(t, k);
        assert(forall|j: int| 0 <= j < s.len() ==> (#[trigger] t[j]).0 == s[j].0);
        if slot(t, k) < slot(s, k) {
            assert(s[slot(t, k)].0 != k);
        }
        if slot(s, k) < slot(t, k) {
            assert(t[slot(s, k)].0 != k);
        }
    }
    assert(as_map(t) =~= as_map(s).insert(s[i].0, v)) by {
        assert forall|k: u64| as_map(t).dom().contains(k) implies as_map(t)[k] == as_map(s).insert(
            s[i].0,
            v,
        )[k] by {
            lemma_slot(s, k);
        }
        lemma_slot(s, s[i].0);
    }
}

/// A new last entry with a new key adds it to the map.
pub proof fn lemma_push<V>(s: Seq<(u64, V)>, k: u64, v: V)
    requires
        !has_key(s, k),
    ensures
        as_map(s.push((k, v))) == as_map(s).insert(k, v),
        keys_distinct(s) ==> keys_distinct(s.push((k, v))),
{
    let t = s.push((k, v));
    assert forall|q: u64| has_key(t, q) == (q == k || has_key(s, q)) && (has_key(s, q) ==> slot(t, q)
        == slot(s, q)) && slot(t, k) == s.len() by {
        lemma_slot(s, q);
        lemma_slot(t, q);
        lemma_slot(t, k);
        assert(forall|j: int| 0 <= j < s.len() ==> (#[trigger] t[j]) == s[j]);
        assert(t[s.len() as int].0 == k);
        if slot(t, k) < s.len() {
            assert(s[slot(t, k)].0 == k);
        }
        if has_key(s, q) {
            if slot(t, q) < slot(s, q) {
                assert(s[slot(t, q)].0 != q);
            }
            if slot(s, q) < slot(t, q) {
                assert(t[slot(s, q)].0 != q);
            }
            assert(t[slot(s, q)].0 == q);
        }
    }
    assert forall|q: u64| has_key(s, q) implies #[trigger] t[slot(s, q)] == s[slot(s, q)] by {
        lemma_slot(s, q);
    }
    assert(as_map(t) =~= as_map(s).insert(k, v));
}

/// Taking an entry out takes its key out of the map.
pub proof fn lemma_remove<V>(s: Seq<(u64, V)>, i: int)
    requires
        keys_distinct(s),
        0 <= i < s.len(),
    ensures
        as_map(s.remove(i)) == as_map(s).remove(s[i].0),
        keys_distinct(s.remove(i)),
{
    let t = s.remove(i);
    let k = s[i].0;
    assert(forall|j: int| 0 <= j < t.len() ==> #[trigger] t[j] == s[if j < i { j } else { j + 1 }]);
    assert forall|q: u64| has_key(t, q) == (q != k && has_key(s, q)) by {
        if has_key(t, q) {
            let j = choose|j: int| 0 <= j < t.len() && (#[trigger] t[j]).0 == q;
            let jj = if j < i { j } else { j + 1 };
            assert(s[jj].0 == q);
        }
        if q != k && has_key(s, q) {
            let j = choose|j: int| 0 <= j < s.len() && (#[trigger] s[j]).0 == q;
            let jj = if j < i { j } else { j - 1 };
            assert(t[jj].0 == q);
        }
    }
    assert forall|q: u64| has_key(t, q) implies #[trigger] as_map(t)[q] == as_map(s)[q] by {
        lemma_slot(t, q);
        let j = slot(t, q);
        let jj = if j < i { j } else { j + 1 };
        lemma_slot_at(s, jj);
    }
    assert(as_map(t) =~= as_map(s).remove(k));
}

impl<V> Table<V> {
    /// The entries in order.
    pub open spec fn seq(self) -> Seq<(u64, V)> {
        self.entries@
    }

    /// The map that the table is.
    pub open spec fn map(self) -> Map<u64, V> {
        as_map(self.entries@)
    }

    /// No key occurs twice.
    pub open spec fn wf(self) -> bool {
        keys_distinct(self.entries@)
    }

    /// A table without entries.
    pub fn new() -> (t: Table<V>)
        ensures
            t.wf(),
            t.seq() == Seq::<(u64, V)>::empty(),
            t.map() == Map::<u64, V>::empty(),
    {
        let t: Table<V> = Table { entries: Vec::new() };
        assert(t.map() =~= Map::<u64, V>::empty());
        t
    }

    /// The position of the entry with key `k`.
    pub fn position(&self, k: u64) -> (r: Option<usize>)
        ensures
            r matches Some(i) ==> i < self.seq().len() && self.seq()[i as int].0 == k
                && i == slot(self.seq(), k) && has_key(self.seq(), k),
            r is None ==> !has_key(self.seq(), k),
    {
        let mut i: usize = 0;
        while i < self.entries.len()
            invariant
                i <= self.entries.len(),
                forall|j: int| 0 <= j < i ==> (#[trigger] self.entries@[j]).0 != k,
            decreases self.entries.len() - i,
        {
            if self.entries[i].0 == k {
                proof {
                    lemma_slot(self.seq(), k);
                }
                return Some(i);
            }
            i += 1;
        }
        None
    }

    /// Whether there is an entry with key `k`.
    pub fn contains_key(&self, k: u64) -> (r: bool)
        ensures
            r == self.map().dom().contains(k),
            r == has_key(self.seq(), k),
    {
        self.position(k).is_some()
    }

    /// The value at `k`.
    pub fn get(&self, k: u64) -> (r: Option<&V>)
        ensures
            r is Some <==> self.map().dom().contains(k),
            r is Some <==> has_key(self.seq(), k),
            r matches Some(v) ==> *v == self.map()[k] && *v == self.seq()[slot(self.seq(), k)].1,
    {
        match self.position(k) {
            Some(i) => Some(&self.entries[i].1),
            None => None,
        }
    }

    /// The value at `k`, to be changed.
    pub fn get_mut(&mut self, k: u64) -> (r: Option<&mut V>)
        ensures
            r is Some <==> has_key(old(self).seq(), k),
            r matches Some(v) ==> {
                let i = slot(old(self).seq(), k);
                &&& 0 <= i < old(self).seq().len()
                &&& *v == old(self).seq()[i].1
                &&& final(self).seq() == old(self).seq().update(i, (k, *final(v)))
                &&& final(self).map() == old(self).map().insert(k, *final(v))
            },
            r is None ==> *final(self) == *old(self),
            old(self).wf() ==> final(self).wf(),
    {
        let ghost before = self.seq();
        match self.position(k) {
            Some(i) => {
                proof {
                    assert forall|v: V| as_map(#[trigger] before.update(i as int, (k, v))) == as_map(
                        before,
                    ).insert(k, v) by {
                        lemma_update(before, i as int, v);
                    }
                }
                Some(&mut self.entries[i].1)
            },
            None => None,
        }
    }

    /// Sets the value at `k`: in place where the key is there already, else in a new last entry.
    pub fn insert(&mut self, k: u64, v: V)
        ensures
            final(self).map() == old(self).map().insert(k, v),
            final(self).seq() == (if has_key(old(self).seq(), k) {
                old(self).seq().update(slot(old(self).seq(), k), (k, v))
            } else {
                old(self).seq().push((k, v))
            }),
            old(self).wf() ==> final(self).wf(),
    {
        let ghost before = self.seq();
        match self.position(k) {
            Some(i) => {
                self.entries[i] = (k, v);
                proof {
                    lemma_update(before, i as int, v);
                }
            },
            None => {
                self.entries.push((k, v));
                proof {
                    lemma_push(before, k, v);
                }
            },
        }
    }

    /// Takes the entry with key `k` out.
    pub fn remove(&mut self, k: u64) -> (r: Option<V>)
        requires
            old(self).wf(),
        ensures
            final(self).wf(),
            r is Some <==> has_key(old(self).seq(), k),
            r matches Some(v) ==> {
                let i = slot(old(self).seq(), k);
                &&& 0 <= i < old(self).seq().len()
                &&& v == old(self).seq()[i].1
                &&& final(self).seq() == old(self).seq().remove(i)
            },
            r is None ==> final(self).seq() == old(self).seq(),
            final(self).map() == old(self).map().remove(k),
            r matches Some(v) ==> v == old(self).map()[k],
    {
        let ghost before = self.seq();
        match self.position(k) {
            Some(i) => {
                let entry = self.entries.remove(i);
                proof {
                    lemma_remove(before, i as int);
                }
                Some(entry.1)
            },
            None => {
                assert(self.map() =~= old(self).map().remove(k));
                None
            },
        }
    }
}

} // verus!
