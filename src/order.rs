use vstd::prelude::*;

verus! {

/// Result of a three-way comparison.
#[derive(Debug, Clone, Copy, PartialEq, Eq, Structural)]
pub enum KeyCmp {
    Less,
    Equal,
    Greater,
}

/// Keys with a strict total order that executable code can decide.
pub trait KeyOrder: Sized + Copy {
    spec fn less(self, other: Self) -> bool;

    proof fn lemma_irreflexive(a: Self)
        ensures
            !a.less(a),
    ;

    proof fn lemma_transitive(a: Self, b: Self, c: Self)
        requires
            a.less(b),
            b.less(c),
        ensures
            a.less(c),
    ;

    proof fn lemma_total(a: Self, b: Self)
        ensures
            a.less(b) || a == b || b.less(a),
    ;

    fn compare(&self, other: &Self) -> (r: KeyCmp)
        ensures
            (r == KeyCmp::Less) == self.less(*other),
            (r == KeyCmp::Equal) == (*self == *other),
            (r == KeyCmp::Greater) == other.less(*self),
    ;
}

impl KeyOrder for i32 {
    open spec fn less(self, other: Self) -> bool {
        self < other
    }

    proof fn lemma_irreflexive(a: Self) {
    }

    proof fn lemma_transitive(a: Self, b: Self, c: Self) {
    }

    proof fn lemma_total(a: Self, b: Self) {
    }

    fn compare(&self, other: &Self) -> (r: KeyCmp) {
        if *self < *other {
            KeyCmp::Less
        } else if *self == *other {
            KeyCmp::Equal
        } else {
            KeyCmp::Greater
        }
    }
}

impl KeyOrder for i64 {
    open spec fn less(self, other: Self) -> bool {
        self < other
    }

    proof fn lemma_irreflexive(a: Self) {
    }

    proof fn lemma_transitive(a: Self, b: Self, c: Self) {
    }

    proof fn lemma_total(a: Self, b: Self) {
    }

    fn compare(&self, other: &Self) -> (r: KeyCmp) {
        if *self < *other {
            KeyCmp::Less
        } else if *self == *other {
            KeyCmp::Equal
        } else {
            KeyCmp::Greater
        }
    }
}

impl KeyOrder for u32 {
    open spec fn less(self, other: Self) -> bool {
        self < other
    }

    proof fn lemma_irreflexive(a: Self) {
    }

    proof fn lemma_transitive(a: Self, b: Self, c: Self) {
    }

    proof fn lemma_total(a: Self, b: Self) {
    }

    fn compare(&self, other: &Self) -> (r: KeyCmp) {
        if *self < *other {
            KeyCmp::Less
        } else if *self == *other {
            KeyCmp::Equal
        } else {
            KeyCmp::Greater
        }
    }
}

impl KeyOrder for u64 {
    open spec fn less(self, other: Self) -> bool {
        self < other
    }

    proof fn lemma_irreflexive(a: Self) {
    }

    proof fn lemma_transitive(a: Self, b: Self, c: Self) {
    }

    proof fn lemma_total(a: Self, b: Self) {
    }

    fn compare(&self, other: &Self) -> (r: KeyCmp) {
        if *self < *other {
            KeyCmp::Less
        } else if *self == *other {
            KeyCmp::Equal
        } else {
            KeyCmp::Greater
        }
    }
}

impl KeyOrder for usize {
    open spec fn less(self, other: Self) -> bool {
        self < other
    }

    proof fn lemma_irreflexive(a: Self) {
    }

    proof fn lemma_transitive(a: Self, b: Self, c: Self) {
    }

    proof fn lemma_total(a: Self, b: Self) {
    }

    fn compare(&self, other: &Self) -> (r: KeyCmp) {
        if *self < *other {
            KeyCmp::Less
        } else if *self == *other {
            KeyCmp::Equal
        } else {
            KeyCmp::Greater
        }
    }
}

/// Every key is strictly less than every key after it.
pub open spec fn strictly_sorted<K: KeyOrder>(s: Seq<K>) -> bool {
    forall|i: int, j: int| 0 <= i < j < s.len() ==> (#[trigger] s[i]).less(#[trigger] s[j])
}

/// Two strictly sorted sequences with the same elements are equal.
pub proof fn lemma_sorted_unique<K: KeyOrder>(a: Seq<K>, b: Seq<K>)
    requires
        strictly_sorted(a),
        strictly_sorted(b),
        a.to_set() == b.to_set(),
    ensures
        a == b,
    decreases a.len() + b.len(),
{
    if a.len() == 0 {
        if b.len() > 0 {
            assert(b.to_set().contains(b[0]));
        }
        assert(a =~= b);
    } else if b.len() == 0 {
        assert(a.to_set().contains(a[0]));
    } else {
        // the first elements are both the least element
        assert(a.to_set().contains(a[0]));
        assert(b.to_set().contains(b[0]));
        let i = choose|i: int| 0 <= i < a.len() && a[i] == b[0];
        let j = choose|j: int| 0 <= j < b.len() && b[j] == a[0];
        if i > 0 {
            assert(a[0].less(a[i]));
            if j > 0 {
                assert(b[0].less(b[j]));
                K::lemma_transitive(a[0], b[0], a[0]);
                K::lemma_irreflexive(a[0]);
            } else {
                K::lemma_irreflexive(a[0]);
            }
        } else {
            if j > 0 {
                assert(b[0].less(b[j]));
                K::lemma_irreflexive(b[0]);
            }
        }
        assert(a[0] == b[0]);
        let a1 = a.drop_first();
        let b1 = b.drop_first();
        assert forall|x: K| a1.to_set().contains(x) implies b1.to_set().contains(x) by {
            let p = choose|p: int| 0 <= p < a1.len() && a1[p] == x;
            assert(a.to_set().contains(a[p + 1]));
            let q = choose|q: int| 0 <= q < b.len() && b[q] == x;
            if q == 0 {
                assert(a[0].less(a[p + 1]));
                K::lemma_irreflexive(a[0]);
            }
            assert(b1[q - 1] == x);
        }
        assert forall|x: K| b1.to_set().contains(x) implies a1.to_set().contains(x) by {
            let p = choose|p: int| 0 <= p < b1.len() && b1[p] == x;
            assert(b.to_set().contains(b[p + 1]));
            let q = choose|q: int| 0 <= q < a.len() && a[q] == x;
            if q == 0 {
                assert(b[0].less(b[p + 1]));
                K::lemma_irreflexive(b[0]);
            }
            assert(a1[q - 1] == x);
        }
        assert(a1.to_set() =~= b1.to_set());
        lemma_sorted_unique(a1, b1);
        assert(a =~= seq![a[0]] + a1);
        assert(b =~= seq![b[0]] + b1);
    }
}

} // verus!
