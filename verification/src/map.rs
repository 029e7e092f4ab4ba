//! An ordered map from `u32` keys to values, kept as a vector of entries
//! sorted by strictly ascending key. Deterministic encoding relies on the
//! ascending iteration order.

use vstd::prelude::*;

verus! {

/// Keys of `s` are strictly ascending.
pub open spec fn entries_sorted<V>(s: Seq<(u32, V)>) -> bool {
    forall|i: int, j: int| 0 <= i < j < s.len() ==> (#[trigger] s[i]).0 < (#[trigger] s[j]).0
}

/// The value stored under `k`, walking the entries front to back.
pub open spec fn entries_get<V>(s: Seq<(u32, V)>, k: u32) -> Option<V>
    decreases s.len(),
{
    if s.len() == 0 {
        None
    } else if s[0].0 == k {
        Some(s[0].1)
    } else {
        entries_get(s.skip(1), k)
    }
}

/// The entries after storing `v` under `k`: the first entry with a key at
/// least `k` is replaced (same key) or pushed back (greater key).
pub open spec fn entries_insert<V>(s: Seq<(u32, V)>, k: u32, v: V) -> Seq<(u32, V)>
    decreases s.len(),
{
    if s.len() == 0 {
        seq![(k, v)]
    } else if k < s[0].0 {
        seq![(k, v)] + s
    } else if k == s[0].0 {
        seq![(k, v)] + s.skip(1)
    } else {
        seq![s[0]] + entries_insert(s.skip(1), k, v)
    }
}

/// Where the first `i` keys are below `k` and the key at `i` (if any) is
/// not, inserting splices the new entry at position `i`.
pub proof fn lemma_entries_insert_at<V>(s: Seq<(u32, V)>, k: u32, v: V, i: int)
    requires
        0 <= i <= s.len(),
        forall|j: int| 0 <= j < i ==> (#[trigger] s[j]).0 < k,
        i < s.len() ==> s[i].0 >= k,
    ensures
        entries_insert(s, k, v) == if i < s.len() && s[i].0 == k {
            s.take(i) + seq![(k, v)] + s.skip(i + 1)
        } else {
            s.take(i) + seq![(k, v)] + s.skip(i)
        },
    decreases i,
{
    if i == 0 {
        if s.len() == 0 {
            assert(entries_insert(s, k, v) =~= s.take(0) + seq![(k, v)] + s.skip(0));
        } else if k < s[0].0 {
            assert(entries_insert(s, k, v) =~= s.take(0) + seq![(k, v)] + s.skip(0));
        } else {
            assert(k == s[0].0);
            assert(entries_insert(s, k, v) =~= s.take(0) + seq![(k, v)] + s.skip(1));
        }
    } else {
        assert(s[0].0 < k);
        let t = s.skip(1);
        assert(forall|j: int| 0 <= j < i - 1 ==> (#[trigger] t[j]).0 < k);
        lemma_entries_insert_at(t, k, v, i - 1);
        if i < s.len() && s[i].0 == k {
            assert(t.take(i - 1) =~= s.take(i).skip(1));
            assert(entries_insert(s, k, v) =~= s.take(i) + seq![(k, v)] + s.skip(i + 1));
        } else {
            assert(t.take(i - 1) =~= s.take(i).skip(1));
            assert(entries_insert(s, k, v) =~= s.take(i) + seq![(k, v)] + s.skip(i));
        }
    }
}

/// Inserting a key above every present key appends the entry.
pub proof fn lemma_entries_insert_append<V>(s: Seq<(u32, V)>, k: u32, v: V)
    requires
        forall|j: int| 0 <= j < s.len() ==> (#[trigger] s[j]).0 < k,
    ensures
        entries_insert(s, k, v) == s.push((k, v)),
{
    lemma_entries_insert_at(s, k, v, s.len() as int);
    assert(s.take(s.len() as int) =~= s);
    assert(s.take(s.len() as int) + seq![(k, v)] + s.skip(s.len() as int) =~= s.push((k, v)));
}

/// The entries with every value passed through `f`, keys untouched.
pub open spec fn entries_map_values<V, W>(s: Seq<(u32, V)>, f: spec_fn(V) -> W) -> Seq<(u32, W)> {
    s.map_values(|p: (u32, V)| (p.0, f(p.1)))
}

/// Mapping values commutes with insertion.
pub proof fn lemma_entries_map_values_insert<V, W>(s: Seq<(u32, V)>, k: u32, v: V, f: spec_fn(V) -> W)
    ensures
        entries_map_values(entries_insert(s, k, v), f) == entries_insert(
            entries_map_values(s, f),
            k,
            f(v),
        ),
    decreases s.len(),
{
    if s.len() == 0 {
        assert(entries_map_values(entries_insert(s, k, v), f) =~= entries_insert(
            entries_map_values(s, f),
            k,
            f(v),
        ));
    } else if k < s[0].0 {
        assert(entries_map_values(entries_insert(s, k, v), f) =~= entries_insert(
            entries_map_values(s, f),
            k,
            f(v),
        ));
    } else if k == s[0].0 {
        assert(entries_map_values(entries_insert(s, k, v), f) =~= entries_insert(
            entries_map_values(s, f),
            k,
            f(v),
        ));
    } else {
        lemma_entries_map_values_insert(s.skip(1), k, v, f);
        assert(entries_map_values(s.skip(1), f) =~= entries_map_values(s, f).skip(1));
        assert(entries_map_values(entries_insert(s, k, v), f) =~= seq![
            entries_map_values(s, f)[0],
        ] + entries_map_values(entries_insert(s.skip(1), k, v), f));
        assert(entries_insert(entries_map_values(s, f), k, f(v)) =~= seq![
            entries_map_values(s, f)[0],
        ] + entries_insert(entries_map_values(s, f).skip(1), k, f(v)));
    }
}

/// An ordered map: entries sorted by strictly ascending key.
#[derive(Debug, Clone)]
pub struct OrderedMap<V> {
    entries: Vec<(u32, V)>,
}

impl<V> View for OrderedMap<V> {
    type V = Seq<(u32, V)>;

    closed spec fn view(&self) -> Seq<(u32, V)> {
        self.entries@
    }
}

impl<V> OrderedMap<V> {
    /// The keys are strictly ascending; every map built through this
    /// interface satisfies it.
    pub open spec fn wf(&self) -> bool {
        entries_sorted(self@)
    }

    /// An empty map.
    pub fn new() -> (r: Self)
        ensures
            r@ =~= Seq::<(u32, V)>::empty(),
            r.wf(),
    {
        OrderedMap { entries: Vec::new() }
    }

    /// Number of entries.
    pub fn len(&self) -> (r: usize)
        ensures
            r == self@.len(),
    {
        self.entries.len()
    }

    /// Whether the map holds no entry.
    pub fn is_empty(&self) -> (r: bool)
        ensures
            r == (self@.len() == 0),
    {
        self.entries.len() == 0
    }

    /// The entry at position `i` in ascending key order.
    pub fn entry_at(&self, i: usize) -> (r: &(u32, V))
        requires
            i < self@.len(),
        ensures
            *r == self@[i as int],
    {
        &self.entries[i]
    }

    /// Look up the value stored under `k`.
    pub fn get(&self, k: u32) -> (r: Option<&V>)
        ensures
            match r {
                Some(v) => entries_get(self@, k) == Some(*v),
                None => entries_get(self@, k) is None,
            },
    {
        let n = self.entries.len();
        let mut i: usize = 0;
        proof {
            assert(self@.skip(0) =~= self@);
        }
        while i < n
            invariant
                0 <= i <= n,
                n == self@.len(),
                entries_get(self@, k) == entries_get(self@.skip(i as int), k),
            decreases n - i,
        {
            if self.entries[i].0 == k {
                assert(self@.skip(i as int)[0] == self@[i as int]);
                return Some(&self.entries[i].1);
            }
            assert(self@.skip(i as int).skip(1) =~= self@.skip(i + 1));
            i = i + 1;
        }
        None
    }

    /// Store `v` under `k`, replacing any entry with the same key and
    /// keeping the entries sorted.
    pub fn insert(&mut self, k: u32, v: V)
        ensures
            final(self)@ == entries_insert(old(self)@, k, v),
            old(self).wf() ==> final(self).wf(),
    {
        let ghost s = self@;
        let n = self.entries.len();
        let mut i: usize = 0;
        while i < n && self.entries[i].0 < k
            invariant
                0 <= i <= n,
                n == self@.len(),
                self@ == s,
                forall|j: int| 0 <= j < i ==> (#[trigger] s[j]).0 < k,
            decreases n - i,
        {
            i = i + 1;
        }
        proof {
            lemma_entries_insert_at(s, k, v, i as int);
        }
        if i < n && self.entries[i].0 == k {
            self.entries.remove(i);
            self.entries.insert(i, (k, v));
            proof {
                assert(self@ =~= s.take(i as int) + seq![(k, v)] + s.skip(i + 1));
                if entries_sorted(s) {
                    assert forall|p: int, q: int| 0 <= p < q < self@.len() implies (
                    #[trigger] self@[p]).0 < (#[trigger] self@[q]).0 by {
                        if p >= i {
                            assert(self@[q] == s[q]);
                        }
                    }
                }
            }
        } else {
            self.entries.insert(i, (k, v));
            proof {
                assert(self@ =~= s.take(i as int) + seq![(k, v)] + s.skip(i as int));
                if entries_sorted(s) {
                    assert forall|p: int, q: int| 0 <= p < q < self@.len() implies (
                    #[trigger] self@[p]).0 < (#[trigger] self@[q]).0 by {
                        if p > i {
                            assert(self@[p] == s[p - 1]);
                        }
                        if q > i {
                            assert(self@[q] == s[q - 1]);
                        }
                    }
                }
            }
        }
    }
}

} // verus!
