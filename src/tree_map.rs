use vstd::prelude::*;
use crate::order::{KeyCmp, KeyOrder, strictly_sorted};

verus! {

/// An ordered map.  Entries are kept in one key-ordered sequence, the
/// leaf level of the tree; `order` is the fan-out the map was made with.
pub struct BPlusTreeMap<K, V> {
    keys: Vec<K>,
    vals: Vec<V>,
    order: u16,
}

impl<K: KeyOrder, V> BPlusTreeMap<K, V> {
    /// The keys, in ascending order.
    pub closed spec fn key_seq(&self) -> Seq<K> {
        self.keys@
    }

    /// The values, in the order of their keys.
    pub closed spec fn val_seq(&self) -> Seq<V> {
        self.vals@
    }

    pub closed spec fn order_spec(&self) -> u16 {
        self.order
    }

    pub closed spec fn wf(&self) -> bool {
        &&& self.keys@.len() == self.vals@.len()
        &&& strictly_sorted(self.keys@)
        &&& self.order >= 3
    }

    pub proof fn lemma_wf_facts(&self)
        requires
            self.wf(),
        ensures
            self.key_seq().len() == self.val_seq().len(),
            strictly_sorted(self.key_seq()),
            self.order_spec() >= 3,
    {
    }

    /// Creates an empty map; `order` must be at least 3.
    pub fn new(order: u16) -> (r: Self)
        requires
            order >= 3,
        ensures
            r.wf(),
            r.key_seq().len() == 0,
            r.val_seq().len() == 0,
            r.order_spec() == order,
    {
        BPlusTreeMap { keys: Vec::new(), vals: Vec::new(), order }
    }

    pub fn min_keys_for_leaf(&self) -> (r: usize)
        ensures
            r == (self.order_spec() as int + 2) / 2,
    {
        (self.order as usize + 2) / 2
    }

    pub fn min_keys_for_internal(&self) -> (r: usize)
        ensures
            r == self.order_spec() as int / 2,
    {
        self.order as usize / 2
    }

    pub fn order(&self) -> (r: u16)
        ensures
            r == self.order_spec(),
    {
        self.order
    }

    /// Locates `k`: `Ok(i)` when it is the `i`-th key, else `Err(i)` with `i`
    /// the position where it would be inserted.
    fn find(&self, k: &K) -> (r: Result<usize, usize>)
        requires
            self.wf(),
        ensures
            r matches Ok(i) ==> i < self.keys@.len() && self.keys@[i as int] == *k,
            r matches Err(i) ==> i <= self.keys@.len() && (forall|j: int|
                0 <= j < i ==> (#[trigger] self.keys@[j]).less(*k)) && (forall|j: int|
                i <= j < self.keys@.len() ==> k.less(#[trigger] self.keys@[j])),
    {
        let mut lo: usize = 0;
        let mut hi: usize = self.keys.len();
        while lo < hi
            invariant
                self.wf(),
                lo <= hi <= self.keys@.len(),
                forall|j: int| 0 <= j < lo ==> (#[trigger] self.keys@[j]).less(*k),
                forall|j: int| hi <= j < self.keys@.len() ==> k.less(#[trigger] self.keys@[j]),
            decreases hi - lo,
        {
            let mid = lo + (hi - lo) / 2;
            match self.keys[mid].compare(k) {
                KeyCmp::Equal => {
                    return Ok(mid);
                },
                KeyCmp::Less => {
                    assert forall|j: int| 0 <= j <= mid implies (#[trigger] self.keys@[j]).less(
                        *k,
                    ) by {
                        if j < mid {
                            K::lemma_transitive(self.keys@[j], self.keys@[mid as int], *k);
                        }
                    }
                    lo = mid + 1;
                },
                KeyCmp::Greater => {
                    assert forall|j: int| mid <= j < self.keys@.len() implies k.less(
                        #[trigger] self.keys@[j],
                    ) by {
                        if j > mid {
                            K::lemma_transitive(*k, self.keys@[mid as int], self.keys@[j]);
                        }
                    }
                    hi = mid;
                },
            }
        }
        Err(lo)
    }

    /// Inserts `key` with `value`.  When the key was present its value is
    /// replaced and the old value returned.
    pub fn insert(&mut self, key: K, value: V) -> (r: Option<V>)
        requires
            old(self).wf(),
        ensures
            final(self).wf(),
            final(self).order_spec() == old(self).order_spec(),
            old(self).key_seq().contains(key) ==> exists|i: int|
                0 <= i < old(self).key_seq().len() && old(self).key_seq()[i] == key
                    && final(self).key_seq() == old(self).key_seq() && final(self).val_seq()
                    == old(self).val_seq().update(i, value) && r == Some(old(self).val_seq()[i]),
            !old(self).key_seq().contains(key) ==> r is None && exists|i: int|
                0 <= i <= old(self).key_seq().len() && final(self).key_seq()
                    == old(self).key_seq().insert(i, key) && final(self).val_seq()
                    == old(self).val_seq().insert(i, value),
    {
        match self.find(&key) {
            Ok(i) => {
                let ghost old_vals = self.vals@;
                let mut value = value;
                std::mem::swap(&mut value, &mut self.vals[i]);
                proof {
                    assert(self.vals@ =~= old_vals.update(i as int, self.vals@[i as int]));
                }
                Some(value)
            },
            Err(i) => {
                let ghost old_keys = self.keys@;
                proof {
                    if old_keys.contains(key) {
                        let j = choose|j: int| 0 <= j < old_keys.len() && old_keys[j] == key;
                        if j < i {
                            K::lemma_irreflexive(key);
                        } else {
                            K::lemma_irreflexive(key);
                        }
                    }
                }
                self.keys.insert(i, key);
                self.vals.insert(i, value);
                assert forall|a: int, b: int| 0 <= a < b < self.keys@.len() implies (
                #[trigger] self.keys@[a]).less(#[trigger] self.keys@[b]) by {
                    if b < i {
                        assert(old_keys[a] == self.keys@[a] && old_keys[b] == self.keys@[b]);
                    } else if b == i {
                        assert(self.keys@[a] == old_keys[a]);
                    } else if a == i {
                        assert(self.keys@[b] == old_keys[b - 1]);
                    } else if a < i {
                        assert(old_keys[a].less(old_keys[b - 1]));
                    } else {
                        assert(old_keys[a - 1].less(old_keys[b - 1]));
                    }
                }
                None
            },
        }
    }

    /// Inserts `key` with `value` unless `key` is already present, in which
    /// case the map is left as it was.  True when it inserted.
    pub fn insert_new(&mut self, key: K, value: V) -> (r: bool)
        requires
            old(self).wf(),
        ensures
            final(self).wf(),
            final(self).order_spec() == old(self).order_spec(),
            r == !old(self).key_seq().contains(key),
            final(self).key_seq().to_set() == old(self).key_seq().to_set().insert(key),
            forall|j: int|
                0 <= j < final(self).val_seq().len() ==> #[trigger] final(self).val_seq()[j]
                    == value || old(self).val_seq().contains(final(self).val_seq()[j]),
    {
        if self.contains_key(&key) {
            assert(self.key_seq().to_set().insert(key) =~= self.key_seq().to_set());
            return false;
        }
        let ghost before = self.keys@;
        let ghost before_vals = self.vals@;
        self.insert(key, value);
        proof {
            let after = self.keys@;
            let i = choose|i: int|
                0 <= i <= before.len() && after == before.insert(i, key) && self.vals@
                    == before_vals.insert(i, value);
            assert forall|x: K| after.to_set().contains(x) <==> before.to_set().insert(key).contains(x) by {
                if after.to_set().contains(x) {
                    let j = choose|j: int| 0 <= j < after.len() && after[j] == x;
                    if j < i {
                        assert(before[j] == x);
                    } else if j > i {
                        assert(before[j - 1] == x);
                    }
                }
                if before.to_set().contains(x) {
                    let j = choose|j: int| 0 <= j < before.len() && before[j] == x;
                    if j < i {
                        assert(after[j] == x);
                    } else {
                        assert(after[j + 1] == x);
                    }
                }
                if x == key {
                    assert(after[i] == x);
                }
            }
            assert(after.to_set() =~= before.to_set().insert(key));
            assert forall|j: int| 0 <= j < self.vals@.len() implies #[trigger] self.vals@[j] == value
                || before_vals.contains(self.vals@[j]) by {
                if j < i {
                    assert(self.vals@[j] == before_vals[j]);
                } else if j > i {
                    assert(self.vals@[j] == before_vals[j - 1]);
                }
            }
        }
        true
    }

    /// The value stored under `key`.
    pub fn get(&self, key: &K) -> (r: Option<&V>)
        requires
            self.wf(),
        ensures
            self.key_seq().contains(*key) <==> r is Some,
            r matches Some(v) ==> exists|i: int|
                0 <= i < self.key_seq().len() && self.key_seq()[i] == *key && *v
                    == self.val_seq()[i],
    {
        match self.find(key) {
            Ok(i) => {
                let v = &self.vals[i];
                assert(0 <= i < self.key_seq().len() && self.key_seq()[i as int] == *key && *v
                    == self.val_seq()[i as int]);
                Some(v)
            },
            Err(i) => {
                proof {
                    if self.keys@.contains(*key) {
                        let j = choose|j: int| 0 <= j < self.keys@.len() && self.keys@[j] == *key;
                        K::lemma_irreflexive(*key);
                    }
                }
                None
            },
        }
    }

    /// A mutable reference to the value stored under `key`.
    pub fn get_mut(&mut self, key: &K) -> (r: Option<&mut V>)
        requires
            old(self).wf(),
        ensures
            final(self).wf(),
            final(self).key_seq() == old(self).key_seq(),
            final(self).order_spec() == old(self).order_spec(),
            old(self).key_seq().contains(*key) <==> r is Some,
            r is None ==> final(self).val_seq() == old(self).val_seq(),
    {
        match self.find(key) {
            Ok(i) => Some(&mut self.vals[i]),
            Err(_) => {
                proof {
                    if self.keys@.contains(*key) {
                        let j = choose|j: int| 0 <= j < self.keys@.len() && self.keys@[j] == *key;
                        K::lemma_irreflexive(*key);
                    }
                }
                None
            },
        }
    }

    /// Whether `key` is present.
    pub fn contains_key(&self, key: &K) -> (r: bool)
        requires
            self.wf(),
        ensures
            r == self.key_seq().contains(*key),
    {
        match self.get(key) {
            Some(_) => true,
            None => false,
        }
    }

    /// Removes `key`, returning its value when it was present.
    pub fn remove(&mut self, key: &K) -> (r: Option<V>)
        requires
            old(self).wf(),
        ensures
            final(self).wf(),
            final(self).order_spec() == old(self).order_spec(),
            old(self).key_seq().contains(*key) ==> exists|i: int|
                0 <= i < old(self).key_seq().len() && old(self).key_seq()[i] == *key
                    && final(self).key_seq() == old(self).key_seq().remove(i) && final(self).val_seq()
                    == old(self).val_seq().remove(i) && r == Some(old(self).val_seq()[i]),
            !old(self).key_seq().contains(*key) ==> r is None && final(self).key_seq()
                == old(self).key_seq() && final(self).val_seq() == old(self).val_seq(),
    {
        match self.find(key) {
            Ok(i) => {
                let ghost old_keys = self.keys@;
                self.keys.remove(i);
                let v = self.vals.remove(i);
                assert forall|a: int, b: int| 0 <= a < b < self.keys@.len() implies (
                #[trigger] self.keys@[a]).less(#[trigger] self.keys@[b]) by {
                    if b < i {
                        assert(old_keys[a].less(old_keys[b]));
                    } else if a < i {
                        assert(old_keys[a].less(old_keys[b + 1]));
                    } else {
                        assert(old_keys[a + 1].less(old_keys[b + 1]));
                    }
                }
                Some(v)
            },
            Err(i) => {
                proof {
                    if self.keys@.contains(*key) {
                        let j = choose|j: int| 0 <= j < self.keys@.len() && self.keys@[j] == *key;
                        K::lemma_irreflexive(*key);
                    }
                }
                None
            },
        }
    }

    /// Number of entries.
    pub fn len(&self) -> (r: usize)
        requires
            self.wf(),
        ensures
            r == self.key_seq().len(),
    {
        self.keys.len()
    }

    pub fn is_empty(&self) -> (r: bool)
        requires
            self.wf(),
        ensures
            r == (self.key_seq().len() == 0),
    {
        self.keys.len() == 0
    }

    /// A cursor over the entries in ascending key order.
    pub fn iter(&self) -> (r: Iter<'_, K, V>)
        requires
            self.wf(),
        ensures
            r.rest().len() == self.key_seq().len(),
            forall|i: int|
                0 <= i < r.rest().len() ==> (#[trigger] r.rest()[i]).0 == self.key_seq()[i] && *r.rest()[i].1
                    == self.val_seq()[i],
    {
        let entries = self.entries();
        let r = Iter { entries, pos: 0 };
        assert(r.rest() =~= entries@);
        r
    }

    /// The entries in ascending key order.
    pub fn entries(&self) -> (r: Vec<(K, &V)>)
        requires
            self.wf(),
        ensures
            r@.len() == self.key_seq().len(),
            forall|i: int|
                0 <= i < r@.len() ==> (#[trigger] r@[i]).0 == self.key_seq()[i] && *r@[i].1
                    == self.val_seq()[i],
    {
        let mut out: Vec<(K, &V)> = Vec::new();
        let mut i: usize = 0;
        while i < self.keys.len()
            invariant
                self.wf(),
                i <= self.keys@.len(),
                out@.len() == i,
                forall|j: int|
                    0 <= j < i ==> (#[trigger] out@[j]).0 == self.keys@[j] && *out@[j].1
                        == self.vals@[j],
            decreases self.keys@.len() - i,
        {
            out.push((self.keys[i], &self.vals[i]));
            i = i + 1;
        }
        out
    }

    /// The keys in ascending order.
    pub fn keys(&self) -> (r: Vec<K>)
        requires
            self.wf(),
        ensures
            r@ == self.key_seq(),
    {
        let mut out: Vec<K> = Vec::new();
        let mut i: usize = 0;
        while i < self.keys.len()
            invariant
                i <= self.keys@.len(),
                out@ == self.keys@.take(i as int),
            decreases self.keys@.len() - i,
        {
            out.push(self.keys[i]);
            i = i + 1;
            assert(out@ =~= self.keys@.take(i as int));
        }
        assert(self.keys@.take(self.keys@.len() as int) =~= self.keys@);
        out
    }
}

/// A cursor over a map's entries, in ascending key order.
pub struct Iter<'a, K, V> {
    entries: Vec<(K, &'a V)>,
    pos: usize,
}

impl<'a, K: Copy, V> Iter<'a, K, V> {
    /// The entries not yet returned.
    pub closed spec fn rest(&self) -> Seq<(K, &'a V)> {
        if self.pos <= self.entries@.len() {
            self.entries@.subrange(self.pos as int, self.entries@.len() as int)
        } else {
            Seq::empty()
        }
    }

    /// The next entry; `None` once all were returned.
    pub fn next(&mut self) -> (r: Option<(K, &'a V)>)
        ensures
            old(self).rest().len() == 0 ==> r is None && final(self).rest().len() == 0,
            old(self).rest().len() > 0 ==> r == Some(old(self).rest()[0]) && final(self).rest()
                == old(self).rest().drop_first(),
    {
        if self.pos < self.entries.len() {
            let (k, v) = self.entries[self.pos];
            self.pos = self.pos + 1;
            assert(self.rest() =~= old(self).rest().drop_first());
            Some((k, v))
        } else {
            None
        }
    }

    /// Number of entries not yet returned.
    pub fn len(&self) -> (r: usize)
        ensures
            r == self.rest().len(),
    {
        if self.pos <= self.entries.len() {
            self.entries.len() - self.pos
        } else {
            0
        }
    }

    /// Exact bounds on the number of entries left.
    pub fn size_hint(&self) -> (r: (usize, Option<usize>))
        ensures
            r.0 == self.rest().len(),
            r.1 == Some(self.rest().len() as usize),
    {
        let n = self.len();
        (n, Some(n))
    }
}

/// Walking the entries yields strictly ascending keys, one per entry.
pub proof fn lemma_iteration_sorted<K: KeyOrder, V>(m: &BPlusTreeMap<K, V>)
    requires
        m.wf(),
    ensures
        strictly_sorted(m.key_seq()),
        m.key_seq().len() == m.val_seq().len(),
        m.key_seq().to_set().len() == m.key_seq().len(),
{
    m.lemma_wf_facts();
    lemma_sorted_distinct(m.key_seq());
}

/// A strictly sorted sequence has no repeated element.
pub proof fn lemma_sorted_distinct<K: KeyOrder>(s: Seq<K>)
    requires
        strictly_sorted(s),
    ensures
        s.no_duplicates(),
        s.to_set().len() == s.len(),
{
    assert forall|i: int, j: int| 0 <= i < s.len() && 0 <= j < s.len() && i != j implies s[i]
        != s[j] by {
        if i < j {
            assert(s[i].less(s[j]));
            K::lemma_irreflexive(s[i]);
        } else {
            assert(s[j].less(s[i]));
            K::lemma_irreflexive(s[j]);
        }
    }
    s.unique_seq_to_set();
}

} // verus!
