use vstd::prelude::*;
use crate::order::{KeyCmp, KeyOrder, strictly_sorted, lemma_sorted_unique};
use crate::tree_map::BPlusTreeMap;

verus! {

/// An ordered set, the keys of a `BPlusTreeMap` with unit values.
pub struct BPlusTreeSet<T> {
    map: BPlusTreeMap<T, ()>,
}

impl<T: KeyOrder> BPlusTreeSet<T> {
    /// The elements in ascending order.
    pub closed spec fn elems(&self) -> Seq<T> {
        self.map.key_seq()
    }

    /// The elements as a set.
    pub open spec fn view(&self) -> Set<T> {
        self.elems().to_set()
    }

    pub closed spec fn wf(&self) -> bool {
        self.map.wf()
    }

    pub closed spec fn order_spec(&self) -> u16 {
        self.map.order_spec()
    }

    pub proof fn lemma_sorted(&self)
        requires
            self.wf(),
        ensures
            strictly_sorted(self.elems()),
    {
        self.map.lemma_wf_facts();
    }

    pub fn new(order: u16) -> (r: Self)
        requires
            order >= 3,
        ensures
            r.wf(),
            r.elems().len() == 0,
            r.order_spec() == order,
    {
        BPlusTreeSet { map: BPlusTreeMap::new(order) }
    }

    pub fn clear(&mut self)
        requires
            old(self).wf(),
        ensures
            final(self).wf(),
            final(self).elems().len() == 0,
            final(self).order_spec() == old(self).order_spec(),
    {
        proof {
            self.map.lemma_wf_facts();
        }
        *self = BPlusTreeSet::new(self.map.order());
    }

    pub fn contains(&self, value: &T) -> (r: bool)
        requires
            self.wf(),
        ensures
            r == self.elems().contains(*value),
    {
        self.map.contains_key(value)
    }

    /// Adds `value`; true when it was not present.
    pub fn insert(&mut self, value: T) -> (r: bool)
        requires
            old(self).wf(),
        ensures
            final(self).wf(),
            final(self).order_spec() == old(self).order_spec(),
            r == !old(self).elems().contains(value),
            final(self).view() == old(self).view().insert(value),
    {
        let ghost before = self.map.key_seq();
        let prev = self.map.insert(value, ());
        proof {
            let after = self.map.key_seq();
            if before.contains(value) {
                assert(after == before);
                assert(before.to_set().insert(value) =~= before.to_set());
            } else {
                let i = choose|i: int| 0 <= i <= before.len() && after == before.insert(i, value);
                assert forall|x: T| after.to_set().contains(x) <==> before.to_set().insert(
                    value,
                ).contains(x) by {
                    if after.to_set().contains(x) {
                        let j = choose|j: int| 0 <= j < after.len() && after[j] == x;
                        if j < i {
                            assert(before[j] == x);
                        } else if j > i {
                            assert(before[j - 1] == x);
                        }
                    }
                    if before.to_set().contains(x) {
                        let j = choose|j: int| 0 <= j < before.len() && before[j] == x;
                        if j < i {
                            assert(after[j] == x);
                        } else {
                            assert(after[j + 1] == x);
                        }
                    }
                    if x == value {
                        assert(after[i] == x);
                    }
                }
                assert(after.to_set() =~= before.to_set().insert(value));
            }
        }
        prev.is_none()
    }

    /// Removes `value`; true when it was present.
    pub fn remove(&mut self, value: &T) -> (r: bool)
        requires
            old(self).wf(),
        ensures
            final(self).wf(),
            final(self).order_spec() == old(self).order_spec(),
            r == old(self).elems().contains(*value),
            final(self).view() == old(self).view().remove(*value),
    {
        let ghost before = self.map.key_seq();
        proof {
            self.map.lemma_wf_facts();
        }
        let prev = self.map.remove(value);
        proof {
            let after = self.map.key_seq();
            if before.contains(*value) {
                let i = choose|i: int|
                    0 <= i < before.len() && before[i] == *value && after == before.remove(i);
                crate::tree_map::lemma_sorted_distinct(before);
                assert forall|x: T| after.to_set().contains(x) <==> before.to_set().remove(
                    *value,
                ).contains(x) by {
                    if after.to_set().contains(x) {
                        let j = choose|j: int| 0 <= j < after.len() && after[j] == x;
                        if j < i {
                            assert(before[j] == x);
                        } else {
                            assert(before[j + 1] == x);
                        }
                    }
                    if before.to_set().remove(*value).contains(x) {
                        let j = choose|j: int| 0 <= j < before.len() && before[j] == x;
                        if j < i {
                            assert(after[j] == x);
                        } else if j > i {
                            assert(after[j - 1] == x);
                        }
                    }
                }
                assert(after.to_set() =~= before.to_set().remove(*value));
            } else {
                assert(before.to_set().remove(*value) =~= before.to_set());
            }
        }
        prev.is_some()
    }

    pub fn len(&self) -> (r: usize)
        requires
            self.wf(),
        ensures
            r == self.elems().len(),
    {
        self.map.len()
    }

    pub fn is_empty(&self) -> (r: bool)
        requires
            self.wf(),
        ensures
            r == (self.elems().len() == 0),
    {
        self.map.is_empty()
    }

    /// The elements in ascending order.
    pub fn iter(&self) -> (r: Vec<T>)
        requires
            self.wf(),
        ensures
            r@ == self.elems(),
    {
        self.map.keys()
    }

    /// Builds a set of order 3 from `items`.
    pub fn from_vec(items: Vec<T>) -> (r: Self)
        ensures
            r.wf(),
            r.view() == items@.to_set(),
    {
        let mut set = BPlusTreeSet::new(3);
        set.extend(items);
        proof {
            assert(Set::<T>::empty().union(items@.to_set()) =~= items@.to_set());
        }
        set
    }

    /// Inserts every item of `items`.
    pub fn extend(&mut self, items: Vec<T>)
        requires
            old(self).wf(),
        ensures
            final(self).wf(),
            final(self).order_spec() == old(self).order_spec(),
            final(self).view() == old(self).view().union(items@.to_set()),
    {
        let mut i: usize = 0;
        while i < items.len()
            invariant
                self.wf(),
                self.order_spec() == old(self).order_spec(),
                i <= items@.len(),
                self.view() == old(self).view().union(items@.take(i as int).to_set()),
            decreases items@.len() - i,
        {
            self.insert(items[i]);
            proof {
                assert(items@.take(i + 1) =~= items@.take(i as int).push(items@[i as int]));
                items@.take(i as int).lemma_push_to_set_commute(items@[i as int]);
                assert(old(self).view().union(items@.take(i + 1).to_set()) =~= old(
                    self,
                ).view().union(items@.take(i as int).to_set()).insert(items@[i as int]));
            }
            i = i + 1;
        }
        assert(items@.take(items@.len() as int) =~= items@);
    }

    /// Whether every element of `self` is in `other`.
    pub fn is_subset(&self, other: &BPlusTreeSet<T>) -> (r: bool)
        requires
            self.wf(),
            other.wf(),
        ensures
            r == self.view().subset_of(other.view()),
    {
        let elems = self.iter();
        let mut i: usize = 0;
        while i < elems.len()
            invariant
                self.wf(),
                other.wf(),
                elems@ == self.elems(),
                i <= elems@.len(),
                forall|j: int| 0 <= j < i ==> other.elems().contains(#[trigger] elems@[j]),
            decreases elems@.len() - i,
        {
            if !other.contains(&elems[i]) {
                assert(self.view().contains(elems@[i as int]));
                return false;
            }
            i = i + 1;
        }
        assert forall|x: T| self.view().contains(x) implies other.view().contains(x) by {
            let j = choose|j: int| 0 <= j < elems@.len() && elems@[j] == x;
        }
        true
    }

    pub fn is_superset(&self, other: &BPlusTreeSet<T>) -> (r: bool)
        requires
            self.wf(),
            other.wf(),
        ensures
            r == other.view().subset_of(self.view()),
    {
        other.is_subset(self)
    }

    /// Whether the two sets share no element.
    pub fn is_disjoint(&self, other: &BPlusTreeSet<T>) -> (r: bool)
        requires
            self.wf(),
            other.wf(),
        ensures
            r == self.view().disjoint(other.view()),
    {
        let elems = self.iter();
        let mut i: usize = 0;
        while i < elems.len()
            invariant
                self.wf(),
                other.wf(),
                elems@ == self.elems(),
                i <= elems@.len(),
                forall|j: int| 0 <= j < i ==> !other.elems().contains(#[trigger] elems@[j]),
            decreases elems@.len() - i,
        {
            if other.contains(&elems[i]) {
                assert(self.view().contains(elems@[i as int]));
                assert(other.view().contains(elems@[i as int]));
                return false;
            }
            i = i + 1;
        }
        assert forall|x: T| self.view().contains(x) implies !other.view().contains(x) by {
            let j = choose|j: int| 0 <= j < elems@.len() && elems@[j] == x;
        }
        true
    }

    /// The elements of `self` that `keep` says to keep (`keep` true) or drop,
    /// according to membership in `other`, in ascending order.
    fn filter_by(&self, other: &BPlusTreeSet<T>, keep_members: bool) -> (r: Vec<T>)
        requires
            self.wf(),
            other.wf(),
        ensures
            strictly_sorted(r@),
            forall|x: T|
                r@.contains(x) <==> self.view().contains(x) && (other.view().contains(x)
                    == keep_members),
    {
        let elems = self.iter();
        proof {
            self.lemma_sorted();
        }
        let mut out: Vec<T> = Vec::new();
        let mut i: usize = 0;
        while i < elems.len()
            invariant
                self.wf(),
                other.wf(),
                elems@ == self.elems(),
                strictly_sorted(elems@),
                i <= elems@.len(),
                strictly_sorted(out@),
                forall|j: int| 0 <= j < out@.len() ==> exists|k: int| 0 <= k < i && elems@[k] == #[trigger] out@[j],
                forall|x: T|
                    out@.contains(x) <==> elems@.take(i as int).contains(x) && (
                    other.view().contains(x) == keep_members),
            decreases elems@.len() - i,
        {
            let x = elems[i];
            let ghost prev = out@;
            if other.contains(&x) == keep_members {
                out.push(x);
                assert forall|a: int, b: int| 0 <= a < b < out@.len() implies (
                #[trigger] out@[a]).less(#[trigger] out@[b]) by {
                    if b == out@.len() - 1 {
                        let k = choose|k: int| 0 <= k < i && elems@[k] == prev[a];
                        assert(elems@[k].less(elems@[i as int]));
                    } else {
                        assert(prev[a].less(prev[b]));
                    }
                }
                assert forall|j: int| 0 <= j < out@.len() implies exists|k: int| 0 <= k < i + 1 && elems@[k] == #[trigger] out@[j] by {
                    if j == out@.len() - 1 {
                        assert(elems@[i as int] == out@[j]);
                    } else {
                        assert(out@[j] == prev[j]);
                    }
                }
            }
            proof {
                assert(elems@.take(i + 1) =~= elems@.take(i as int).push(x));
                assert forall|y: T|
                    out@.contains(y) <==> elems@.take(i + 1).contains(y) && (
                    other.view().contains(y) == keep_members) by {
                    if out@.contains(y) && !prev.contains(y) {
                        let j = choose|j: int| 0 <= j < out@.len() && out@[j] == y;
                        assert(j == prev.len());
                        assert(elems@.take(i + 1)[i as int] == y);
                    }
                    if prev.contains(y) {
                        let j = choose|j: int| 0 <= j < prev.len() && prev[j] == y;
                        assert(out@[j] == y);
                        let pre = elems@.take(i as int);
                        let k = choose|k: int| 0 <= k < pre.len() && #[trigger] pre[k] == y;
                        assert(elems@.take(i + 1)[k] == y);
                    }
                    if elems@.take(i + 1).contains(y) && (other.view().contains(y) == keep_members) {
                        let pre1 = elems@.take(i + 1);
                        let k = choose|k: int| 0 <= k < pre1.len() && #[trigger] pre1[k] == y;
                        if k < i {
                            assert(elems@.take(i as int)[k] == y);
                        } else {
                            assert(out@[out@.len() - 1] == y);
                        }
                    }
                }
            }
            i = i + 1;
        }
        assert(elems@.take(elems@.len() as int) =~= elems@);
        out
    }

    /// The elements of both sets, ascending.
    pub fn intersection(&self, other: &BPlusTreeSet<T>) -> (r: Vec<T>)
        requires
            self.wf(),
            other.wf(),
        ensures
            strictly_sorted(r@),
            r@.to_set() == self.view().intersect(other.view()),
    {
        let r = self.filter_by(other, true);
        assert(r@.to_set() =~= self.view().intersect(other.view()));
        r
    }

    /// The elements of `self` not in `other`, ascending.
    pub fn difference(&self, other: &BPlusTreeSet<T>) -> (r: Vec<T>)
        requires
            self.wf(),
            other.wf(),
        ensures
            strictly_sorted(r@),
            r@.to_set() == self.view().difference(other.view()),
    {
        let r = self.filter_by(other, false);
        assert(r@.to_set() =~= self.view().difference(other.view()));
        r
    }

    /// A copy of the set.
    pub fn duplicate(&self) -> (r: Self)
        requires
            self.wf(),
        ensures
            r.wf(),
            r.view() == self.view(),
    {
        proof {
            self.map.lemma_wf_facts();
        }
        let mut s = BPlusTreeSet::new(self.map.order());
        s.extend(self.iter());
        assert(Set::<T>::empty().union(self.elems().to_set()) =~= self.view());
        s
    }

    /// The elements of either set, as a set of the order of `self`.
    pub fn union_set(&self, other: &BPlusTreeSet<T>) -> (r: Self)
        requires
            self.wf(),
            other.wf(),
        ensures
            r.wf(),
            r.view() == self.view().union(other.view()),
    {
        let mut s = self.duplicate();
        s.extend(other.iter());
        s
    }

    /// The elements of either set, ascending.
    pub fn union(&self, other: &BPlusTreeSet<T>) -> (r: Vec<T>)
        requires
            self.wf(),
            other.wf(),
        ensures
            strictly_sorted(r@),
            r@.to_set() == self.view().union(other.view()),
    {
        let s = self.union_set(other);
        proof {
            s.lemma_sorted();
        }
        s.iter()
    }

    /// The elements of exactly one of the sets, as a set.
    pub fn symmetric_difference_set(&self, other: &BPlusTreeSet<T>) -> (r: Self)
        requires
            self.wf(),
            other.wf(),
        ensures
            r.wf(),
            r.view() == self.view().difference(other.view()).union(
                other.view().difference(self.view()),
            ),
    {
        let mut s = BPlusTreeSet::new(3);
        s.extend(self.difference(other));
        s.extend(other.difference(self));
        assert(Set::<T>::empty().union(self.view().difference(other.view())) =~= self.view().difference(other.view()));
        s
    }

    /// The elements of exactly one of the sets, ascending.
    pub fn symmetric_difference(&self, other: &BPlusTreeSet<T>) -> (r: Vec<T>)
        requires
            self.wf(),
            other.wf(),
        ensures
            strictly_sorted(r@),
            r@.to_set() == self.view().difference(other.view()).union(
                other.view().difference(self.view()),
            ),
    {
        let s = self.symmetric_difference_set(other);
        proof {
            s.lemma_sorted();
        }
        s.iter()
    }

    /// The intersection as a set.
    pub fn intersection_set(&self, other: &BPlusTreeSet<T>) -> (r: Self)
        requires
            self.wf(),
            other.wf(),
        ensures
            r.wf(),
            r.view() == self.view().intersect(other.view()),
    {
        let mut s = BPlusTreeSet::new(3);
        s.extend(self.intersection(other));
        assert(Set::<T>::empty().union(self.view().intersect(other.view())) =~= self.view().intersect(other.view()));
        s
    }

    /// The difference as a set.
    pub fn difference_set(&self, other: &BPlusTreeSet<T>) -> (r: Self)
        requires
            self.wf(),
            other.wf(),
        ensures
            r.wf(),
            r.view() == self.view().difference(other.view()),
    {
        let mut s = BPlusTreeSet::new(3);
        s.extend(self.difference(other));
        assert(Set::<T>::empty().union(self.view().difference(other.view())) =~= self.view().difference(other.view()));
        s
    }

    /// Whether both sets hold the same elements.
    pub fn equals(&self, other: &BPlusTreeSet<T>) -> (r: bool)
        requires
            self.wf(),
            other.wf(),
        ensures
            r == (self.view() == other.view()),
    {
        let a = self.is_subset(other);
        let b = other.is_subset(self);
        if a && b {
            assert(self.view() =~= other.view());
        }
        a && b
    }
}

impl<T: KeyOrder> Default for BPlusTreeSet<T> {
    /// An empty set of the smallest order.
    fn default() -> (r: Self)
        ensures
            r.wf(),
            r.elems().len() == 0,
    {
        BPlusTreeSet::new(3)
    }
}

/// Lexicographic comparison of two ascending element sequences.
pub open spec fn lex_cmp<T: KeyOrder>(a: Seq<T>, b: Seq<T>) -> KeyCmp
    decreases a.len(),
{
    if a.len() == 0 && b.len() == 0 {
        KeyCmp::Equal
    } else if a.len() == 0 {
        KeyCmp::Less
    } else if b.len() == 0 {
        KeyCmp::Greater
    } else if a[0].less(b[0]) {
        KeyCmp::Less
    } else if b[0].less(a[0]) {
        KeyCmp::Greater
    } else {
        lex_cmp(a.drop_first(), b.drop_first())
    }
}

impl<T: KeyOrder> BPlusTreeSet<T> {
    /// Compares the element sequences lexicographically.
    pub fn cmp_set(&self, other: &BPlusTreeSet<T>) -> (r: KeyCmp)
        requires
            self.wf(),
            other.wf(),
        ensures
            r == lex_cmp(self.elems(), other.elems()),
    {
        let a = self.iter();
        let b = other.iter();
        let mut i: usize = 0;
        assert(a@.subrange(0, a@.len() as int) =~= a@);
        assert(b@.subrange(0, b@.len() as int) =~= b@);
        while i < a.len() && i < b.len()
            invariant
                a@ == self.elems(),
                b@ == other.elems(),
                i <= a@.len(),
                i <= b@.len(),
                lex_cmp(a@, b@) == lex_cmp(a@.subrange(i as int, a@.len() as int), b@.subrange(i as int, b@.len() as int)),
            decreases a@.len() - i,
        {
            let ghost sa = a@.subrange(i as int, a@.len() as int);
            let ghost sb = b@.subrange(i as int, b@.len() as int);
            assert(sa[0] == a@[i as int] && sb[0] == b@[i as int]);
            match a[i].compare(&b[i]) {
                KeyCmp::Less => {
                    return KeyCmp::Less;
                },
                KeyCmp::Greater => {
                    return KeyCmp::Greater;
                },
                KeyCmp::Equal => {
                    proof {
                        T::lemma_irreflexive(a@[i as int]);
                    }
                    assert(sa.drop_first() =~= a@.subrange(i + 1, a@.len() as int));
                    assert(sb.drop_first() =~= b@.subrange(i + 1, b@.len() as int));
                },
            }
            i = i + 1;
        }
        if i < a.len() {
            KeyCmp::Greater
        } else if i < b.len() {
            KeyCmp::Less
        } else {
            KeyCmp::Equal
        }
    }
}

/// Two sets with the same elements list them identically.
pub proof fn lemma_iteration_determined<T: KeyOrder>(a: &BPlusTreeSet<T>, b: &BPlusTreeSet<T>)
    requires
        a.wf(),
        b.wf(),
        a.view() == b.view(),
    ensures
        a.elems() == b.elems(),
{
    a.lemma_sorted();
    b.lemma_sorted();
    lemma_sorted_unique(a.elems(), b.elems());
}

} // verus!
