use vstd::prelude::*;
use crate::types::ValueType;

verus! {

/// One stored match: an address and the type it was matched as.
#[derive(Debug, Clone, Copy, PartialEq, Eq, Structural)]
pub struct ExactSearchResultItem {
    pub address: u64,
    pub typ: ValueType,
}

impl ExactSearchResultItem {
    pub fn new(address: u64, typ: ValueType) -> (r: Self)
        ensures
            r.address == address,
            r.typ == typ,
    {
        ExactSearchResultItem { address, typ }
    }
}

/// Bytes one item takes in the store's packed layout.
pub const ITEM_BYTES: usize = 9;

/// The items of `s` whose positions are not in `del`, in order.
pub open spec fn without_positions<T>(s: Seq<T>, del: Set<int>) -> Seq<T>
    decreases s.len(),
{
    if s.len() == 0 {
        s
    } else if del.contains(s.len() - 1) {
        without_positions(s.drop_last(), del)
    } else {
        without_positions(s.drop_last(), del).push(s.last())
    }
}

/// The positions `0..n`.
pub open spec fn all_positions(n: nat) -> Set<int> {
    Set::new(|i: int| 0 <= i < n)
}

/// The items of `s` whose positions are in `keep`, in order.
pub open spec fn at_positions<T>(s: Seq<T>, keep: Set<int>) -> Seq<T>
    decreases s.len(),
{
    if s.len() == 0 {
        s
    } else if keep.contains(s.len() - 1) {
        at_positions(s.drop_last(), keep).push(s.last())
    } else {
        at_positions(s.drop_last(), keep)
    }
}

/// `s` with the positions of `idx` removed one after the other.
pub open spec fn remove_each<T>(s: Seq<T>, idx: Seq<int>) -> Seq<T>
    decreases idx.len(),
{
    if idx.len() == 0 {
        s
    } else {
        remove_each(s.remove(idx[0]), idx.drop_first())
    }
}

/// The window `[start, start + n)` of `s`, cut at its end.
pub open spec fn window<T>(s: Seq<T>, start: int, n: int) -> Seq<T> {
    if start >= s.len() {
        Seq::empty()
    } else if start + n >= s.len() {
        s.subrange(start, s.len() as int)
    } else {
        s.subrange(start, start + n)
    }
}

pub proof fn lemma_without_positions_len<T>(s: Seq<T>, del: Set<int>)
    ensures
        without_positions(s, del).len() <= s.len(),
    decreases s.len(),
{
    if s.len() > 0 {
        lemma_without_positions_len(s.drop_last(), del);
    }
}

/// Only the positions below the length matter.
pub proof fn lemma_without_positions_ext<T>(s: Seq<T>, a: Set<int>, b: Set<int>)
    requires
        forall|i: int| 0 <= i < s.len() ==> (a.contains(i) <==> b.contains(i)),
    ensures
        without_positions(s, a) == without_positions(s, b),
    decreases s.len(),
{
    if s.len() > 0 {
        lemma_without_positions_ext(s.drop_last(), a, b);
    }
}

pub proof fn lemma_without_positions_append<T>(s: Seq<T>, t: Seq<T>, del: Set<int>)
    ensures
        without_positions(s + t, del) == without_positions(s, del) + without_positions(
            t,
            Set::new(|i: int| del.contains(i + s.len())),
        ),
    decreases t.len(),
{
    let sh = Set::new(|i: int| del.contains(i + s.len()));
    if t.len() == 0 {
        assert(s + t =~= s);
        assert(without_positions(s, del) + without_positions(t, sh) =~= without_positions(s, del));
    } else {
        assert((s + t).drop_last() =~= s + t.drop_last());
        lemma_without_positions_append(s, t.drop_last(), del);
        if del.contains(s.len() + t.len() - 1) {
            assert(sh.contains(t.len() - 1));
        } else {
            assert(!sh.contains(t.len() - 1));
            assert((s + t).last() == t.last());
            assert(without_positions(s, del) + without_positions(t, sh) =~= (without_positions(
                s,
                del,
            ) + without_positions(t.drop_last(), sh)).push(t.last()));
        }
    }
}

/// Deleting positions `idx` in one batch leaves what deleting them one at a
/// time, highest first, leaves.
pub proof fn lemma_batch_equals_serial<T>(s: Seq<T>, idx: Seq<int>)
    requires
        forall|a: int, b: int| 0 <= a < b < idx.len() ==> idx[a] > idx[b],
        forall|a: int| 0 <= a < idx.len() ==> 0 <= #[trigger] idx[a] < s.len(),
    ensures
        remove_each(s, idx) == without_positions(s, idx.to_set()),
    decreases idx.len(),
{
    if idx.len() == 0 {
        assert(without_positions(s, idx.to_set()) == s) by {
            lemma_without_none(s, idx.to_set());
        }
    } else {
        let i = idx[0];
        let rest = idx.drop_first();
        assert forall|a: int| 0 <= a < rest.len() implies 0 <= #[trigger] rest[a] < s.remove(
            i,
        ).len() by {
            assert(rest[a] == idx[a + 1]);
            assert(idx[0] > idx[a + 1]);
        }
        lemma_batch_equals_serial(s.remove(i), rest);
        // positions above i are untouched by the remaining deletions
        lemma_remove_one(s, i, rest.to_set());
        assert forall|j: int| 0 <= j < s.len() implies (idx.to_set().contains(j) <==> (
        j == i || rest.to_set().contains(j))) by {
            if idx.to_set().contains(j) {
                let k = choose|k: int| 0 <= k < idx.len() && idx[k] == j;
                if k > 0 {
                    assert(rest[k - 1] == j);
                }
            }
            if rest.to_set().contains(j) {
                let k = choose|k: int| 0 <= k < rest.len() && rest[k] == j;
                assert(idx[k + 1] == j);
            }
            if j == i {
                assert(idx[0] == j);
            }
        }
        lemma_without_positions_ext(s, idx.to_set(), rest.to_set().insert(i));
    }
}

pub proof fn lemma_without_none<T>(s: Seq<T>, del: Set<int>)
    requires
        forall|j: int| 0 <= j < s.len() ==> !del.contains(j),
    ensures
        without_positions(s, del) == s,
    decreases s.len(),
{
    if s.len() > 0 {
        lemma_without_none(s.drop_last(), del);
        assert(s.drop_last().push(s.last()) =~= s);
    }
}

/// Removing position `i` first, then positions `rest` that all lie below
/// `i`, is deleting `rest` and `i` together.
pub proof fn lemma_remove_one<T>(s: Seq<T>, i: int, rest: Set<int>)
    requires
        0 <= i < s.len(),
        forall|j: int| rest.contains(j) ==> j < i,
    ensures
        without_positions(s.remove(i), rest) == without_positions(s, rest.insert(i)),
{
    let pre = s.take(i);
    let post = s.subrange(i + 1, s.len() as int);
    assert(s.remove(i) =~= pre + post);
    assert(s =~= pre + seq![s[i]] + post);
    lemma_without_positions_append(pre, post, rest);
    lemma_without_positions_append(pre + seq![s[i]], post, rest.insert(i));
    lemma_without_positions_append(pre, seq![s[i]], rest.insert(i));
    let sh1 = Set::new(|j: int| rest.contains(j + pre.len()));
    let sh2 = Set::new(|j: int| rest.insert(i).contains(j + (pre.len() + 1)));
    assert forall|j: int| 0 <= j < post.len() implies !sh1.contains(j) && !sh2.contains(j) by {
    }
    lemma_without_none(post, sh1);
    lemma_without_none(post, sh2);
    lemma_without_positions_ext(pre, rest, rest.insert(i));
    let sh3 = Set::new(|j: int| rest.insert(i).contains(j + pre.len()));
    assert(sh3.contains(0));
    assert(seq![s[i]].drop_last() =~= Seq::<T>::empty());
    assert(without_positions(Seq::<T>::empty(), sh3) =~= Seq::<T>::empty());
    assert(seq![s[i]].len() - 1 == 0);
    assert(without_positions(seq![s[i]], sh3) == without_positions(seq![s[i]].drop_last(), sh3));
    assert(without_positions(seq![s[i]], sh3) =~= Seq::<T>::empty());
    assert(without_positions(pre, rest.insert(i)) + Seq::<T>::empty() =~= without_positions(
        pre,
        rest.insert(i),
    ));
}

/// Keeping the positions `keep` is deleting every other position.
pub proof fn lemma_keep_only_duality<T>(s: Seq<T>, keep: Set<int>)
    ensures
        at_positions(s, keep) == without_positions(s, all_positions(s.len()).difference(keep)),
    decreases s.len(),
{
    if s.len() > 0 {
        let n = s.len();
        lemma_keep_only_duality(s.drop_last(), keep);
        lemma_without_positions_ext(
            s.drop_last(),
            all_positions((n - 1) as nat).difference(keep),
            all_positions(n).difference(keep),
        );
    }
}

/// Adding an item and reading the last position gives the item back.
pub proof fn lemma_add_round_trip<T>(s: Seq<T>, x: T)
    ensures
        window(s.push(x), s.len() as int, 1) == seq![x],
{
    assert(window(s.push(x), s.len() as int, 1) =~= seq![x]);
}

/// Search results in insertion order: the first `capacity` live in memory,
/// the rest in an overflow segment.
pub struct ExactSearchResultManager {
    memory_buffer: Vec<ExactSearchResultItem>,
    memory_buffer_capacity: usize,
    overflow: Vec<ExactSearchResultItem>,
}

impl ExactSearchResultManager {
    /// All items, in order.
    pub closed spec fn items(&self) -> Seq<ExactSearchResultItem> {
        self.memory_buffer@ + self.overflow@
    }

    pub closed spec fn memory_items(&self) -> Seq<ExactSearchResultItem> {
        self.memory_buffer@
    }

    pub closed spec fn overflow_items(&self) -> Seq<ExactSearchResultItem> {
        self.overflow@
    }

    pub closed spec fn capacity(&self) -> nat {
        self.memory_buffer_capacity as nat
    }

    pub closed spec fn wf(&self) -> bool {
        &&& self.memory_buffer@.len() <= self.memory_buffer_capacity
        &&& self.memory_buffer@.len() + self.overflow@.len() <= usize::MAX
    }

    /// Items fill memory first: the store is as an append-only store left it.
    pub open spec fn filled_in_order(&self) -> bool {
        self.memory_items().len() == if self.items().len() < self.capacity() {
            self.items().len()
        } else {
            self.capacity()
        }
    }

    pub proof fn lemma_layout(&self)
        ensures
            self.items() == self.memory_items() + self.overflow_items(),
    {
    }

    /// A store whose memory part holds `memory_buffer_size` bytes of items.
    pub fn new(memory_buffer_size: usize) -> (r: Self)
        ensures
            r.wf(),
            r.items().len() == 0,
            r.capacity() == (memory_buffer_size / ITEM_BYTES) as nat,
            r.filled_in_order(),
    {
        ExactSearchResultManager {
            memory_buffer: Vec::new(),
            memory_buffer_capacity: memory_buffer_size / ITEM_BYTES,
            overflow: Vec::new(),
        }
    }

    pub fn clear(&mut self)
        ensures
            final(self).wf(),
            final(self).items().len() == 0,
            final(self).capacity() == old(self).capacity(),
    {
        self.memory_buffer.clear();
        self.overflow.clear();
        assert(self.items() =~= Seq::<ExactSearchResultItem>::empty());
    }

    /// Appends an item.  It goes to memory while memory has room and nothing
    /// has spilled yet, else to the overflow segment.
    pub fn add_result(&mut self, item: ExactSearchResultItem)
        requires
            old(self).wf(),
            old(self).items().len() < usize::MAX,
        ensures
            final(self).wf(),
            final(self).items() == old(self).items().push(item),
            final(self).capacity() == old(self).capacity(),
            old(self).filled_in_order() ==> final(self).filled_in_order(),
    {
        if self.overflow.len() == 0 && self.memory_buffer.len() < self.memory_buffer_capacity {
            self.memory_buffer.push(item);
        } else {
            self.overflow.push(item);
        }
        assert(self.items() =~= old(self).items().push(item));
    }

    /// Items `start .. start + size`, cut at the end of the store.
    pub fn get_results(&self, start: usize, size: usize) -> (r: Vec<ExactSearchResultItem>)
        requires
            self.wf(),
        ensures
            r@ == window(self.items(), start as int, size as int),
    {
        let total = self.total_count();
        let mut out: Vec<ExactSearchResultItem> = Vec::new();
        if start >= total {
            return out;
        }
        let end = if size >= total - start {
            total
        } else {
            start + size
        };
        let mem = self.memory_buffer.len();
        let mut i = start;
        while i < end
            invariant
                self.wf(),
                start <= i <= end <= total,
                total == self.items().len(),
                mem == self.memory_buffer@.len(),
                out@ == self.items().subrange(start as int, i as int),
            decreases end - i,
        {
            if i < mem {
                out.push(self.memory_buffer[i]);
            } else {
                out.push(self.overflow[i - mem]);
            }
            i = i + 1;
            assert(out@ =~= self.items().subrange(start as int, i as int));
        }
        out
    }

    pub fn total_count(&self) -> (r: usize)
        requires
            self.wf(),
        ensures
            r == self.items().len(),
    {
        self.memory_buffer.len() + self.overflow.len()
    }

    pub fn memory_count(&self) -> (r: usize)
        ensures
            r == self.memory_items().len(),
    {
        self.memory_buffer.len()
    }

    pub fn disk_count(&self) -> (r: usize)
        ensures
            r == self.overflow_items().len(),
    {
        self.overflow.len()
    }

    /// Removes the item at `index`; fails when it is out of range.
    pub fn remove_result(&mut self, index: usize) -> (r: Result<(), String>)
        requires
            old(self).wf(),
        ensures
            final(self).wf(),
            final(self).capacity() == old(self).capacity(),
            r is Ok <==> index < old(self).items().len(),
            r is Ok ==> final(self).items() == old(self).items().remove(index as int),
            r is Err ==> final(self).items() == old(self).items(),
    {
        let mem = self.memory_buffer.len();
        if index >= mem + self.overflow.len() {
            return Err("Index out of bounds".to_string());
        }
        if index < mem {
            self.memory_buffer.remove(index);
        } else {
            self.overflow.remove(index - mem);
        }
        assert(self.items() =~= old(self).items().remove(index as int));
        Ok(())
    }

    /// Removes every item whose position is listed in `indices`; positions
    /// out of range are ignored.  Each side is compacted in one sweep.
    pub fn remove_results_batch(&mut self, indices: Vec<usize>)
        requires
            old(self).wf(),
        ensures
            final(self).wf(),
            final(self).capacity() == old(self).capacity(),
            final(self).items() == without_positions(old(self).items(), index_set(indices@)),
    {
        let ghost del = index_set(indices@);
        let mem = self.memory_buffer.len();
        let total = mem + self.overflow.len();
        let marks = mark_positions(&indices, total);
        let ghost old_mem = self.memory_buffer@;
        let ghost old_over = self.overflow@;
        compact(&mut self.memory_buffer, &marks, 0);
        compact(&mut self.overflow, &marks, mem);
        proof {
            let shifted = Set::new(|i: int| del.contains(i + mem));
            lemma_without_positions_append(old_mem, old_over, del);
            lemma_without_positions_ext(old_mem, del, marked_from(marks@, 0));
            lemma_without_positions_ext(old_over, shifted, marked_from(marks@, mem as int));
            assert(old(self).items() == old_mem + old_over);
        }
    }

    /// Keeps only the items whose positions are listed in `keep_indices`.
    /// When fewer items are kept than removed the store is rebuilt from the
    /// kept items, else the others are removed in one batch.
    pub fn keep_only_results(&mut self, keep_indices: Vec<usize>)
        requires
            old(self).wf(),
        ensures
            final(self).wf(),
            final(self).capacity() == old(self).capacity(),
            final(self).items() == at_positions(old(self).items(), index_set(keep_indices@)),
    {
        let ghost keep = index_set(keep_indices@);
        let ghost items = self.items();
        let total = self.total_count();
        let marks = mark_positions(&keep_indices, total);
        let ghost drop_set = marked_from(marks@.map_values(|m: bool| !m), 0);
        proof {
            lemma_keep_only_duality(items, keep);
            lemma_without_positions_ext(
                items,
                all_positions(items.len()).difference(keep),
                drop_set,
            );
        }
        let mut keep_count: usize = 0;
        let mut c: usize = 0;
        while c < total
            invariant
                marks@.len() == total,
                c <= total,
                keep_count <= c,
            decreases total - c,
        {
            if marks[c] {
                keep_count = keep_count + 1;
            }
            c = c + 1;
        }
        let remove_count = total - keep_count;
        if keep_count <= remove_count {
            let mut kept: Vec<ExactSearchResultItem> = Vec::new();
            let mut j: usize = 0;
            while j < total
                invariant
                    self.wf(),
                    self.items() == items,
                    total == items.len(),
                    marks@.len() == total,
                    drop_set == marked_from(marks@.map_values(|m: bool| !m), 0),
                    j <= total,
                    kept@ == without_positions(items.take(j as int), drop_set),
                decreases total - j,
            {
                let ghost prev = items.take(j as int);
                assert(items.take(j + 1).drop_last() =~= prev);
                if marks[j] {
                    let item = self.get_item(j);
                    kept.push(item);
                    assert(!drop_set.contains(j as int));
                } else {
                    assert(drop_set.contains(j as int));
                }
                j = j + 1;
            }
            assert(items.take(total as int) =~= items);
            proof {
                lemma_without_positions_len(items, drop_set);
            }
            self.clear();
            let mut q: usize = 0;
            while q < kept.len()
                invariant
                    self.wf(),
                    self.capacity() == old(self).capacity(),
                    q <= kept@.len() <= total,
                    self.items() == kept@.take(q as int),
                decreases kept@.len() - q,
            {
                self.add_result(kept[q]);
                assert(kept@.take(q + 1) =~= kept@.take(q as int).push(kept@[q as int]));
                q = q + 1;
            }
            assert(kept@.take(kept@.len() as int) =~= kept@);
        } else {
            let mut remove: Vec<usize> = Vec::new();
            let mut j: usize = 0;
            while j < total
                invariant
                    marks@.len() == total,
                    j <= total,
                    forall|p: int|
                        0 <= p < total ==> (index_set(remove@).contains(p) <==> (p < j
                            && !marks@[p])),
                    forall|k: int| 0 <= k < remove@.len() ==> #[trigger] remove@[k] < j,
                decreases total - j,
            {
                let ghost prev = remove@;
                if !marks[j] {
                    remove.push(j);
                    assert(remove@[prev.len() as int] == j);
                    assert forall|p: int| 0 <= p < total implies (index_set(remove@).contains(p)
                        <==> (p < j + 1 && !marks@[p])) by {
                        if index_set(remove@).contains(p) && p != j {
                            let w = choose|w: int| 0 <= w < remove@.len() && remove@[w] as int == p;
                            assert(prev[w] as int == p);
                        }
                        if index_set(prev).contains(p) {
                            let w = choose|w: int| 0 <= w < prev.len() && prev[w] as int == p;
                            assert(remove@[w] as int == p);
                        }
                    }
                } else {
                    assert forall|p: int| 0 <= p < total implies (index_set(remove@).contains(p)
                        <==> (p < j + 1 && !marks@[p])) by {
                        if p == j && index_set(remove@).contains(p) {
                            let w = choose|w: int| 0 <= w < remove@.len() && remove@[w] as int == p;
                            assert(remove@[w] < j);
                        }
                    }
                }
                j = j + 1;
            }
            let ghost del = index_set(remove@);
            self.remove_results_batch(remove);
            proof {
                lemma_without_positions_ext(items, del, drop_set);
            }
        }
    }

    /// The item at position `i`.
    fn get_item(&self, i: usize) -> (r: ExactSearchResultItem)
        requires
            self.wf(),
            i < self.items().len(),
        ensures
            r == self.items()[i as int],
    {
        let mem = self.memory_buffer.len();
        if i < mem {
            self.memory_buffer[i]
        } else {
            self.overflow[i - mem]
        }
    }

    /// All items, in order.
    pub fn get_all_results(&self) -> (r: Vec<ExactSearchResultItem>)
        requires
            self.wf(),
        ensures
            r@ == self.items(),
    {
        let n = self.total_count();
        let r = self.get_results(0, n);
        assert(self.items().subrange(0, n as int) =~= self.items());
        r
    }
}

/// With memory filled in order and more items than memory holds, the last
/// item in memory is at position `capacity - 1` and the first spilled one at
/// `capacity`.
pub proof fn lemma_spill_boundary(s: &ExactSearchResultManager)
    requires
        s.filled_in_order(),
        s.capacity() > 0,
        s.items().len() > s.capacity(),
    ensures
        s.memory_items().len() == s.capacity(),
        s.items()[s.capacity() - 1] == s.memory_items()[s.capacity() - 1],
        s.items()[s.capacity() as int] == s.overflow_items()[0],
{
}

/// The positions listed in `v`.
pub open spec fn index_set(v: Seq<usize>) -> Set<int> {
    Set::new(|i: int| exists|k: int| 0 <= k < v.len() && v[k] as int == i)
}

/// The positions `i` whose mark at `base + i` is set.
pub open spec fn marked_from(marks: Seq<bool>, base: int) -> Set<int> {
    Set::new(|i: int| 0 <= i + base < marks.len() && marks[i + base])
}

/// One mark per position below `total`, set for the positions `indices` lists.
fn mark_positions(indices: &Vec<usize>, total: usize) -> (marks: Vec<bool>)
    ensures
        marks@.len() == total,
        forall|j: int| 0 <= j < total ==> (#[trigger] marks@[j] <==> index_set(indices@).contains(j)),
{
    let mut marks: Vec<bool> = Vec::new();
    let mut i: usize = 0;
    while i < total
        invariant
            i <= total,
            marks@.len() == i,
            forall|j: int| 0 <= j < i ==> !(#[trigger] marks@[j]),
        decreases total - i,
    {
        marks.push(false);
        i = i + 1;
    }
    let mut k: usize = 0;
    while k < indices.len()
        invariant
            marks@.len() == total,
            k <= indices@.len(),
            forall|j: int|
                0 <= j < total ==> (#[trigger] marks@[j] <==> exists|q: int|
                    0 <= q < k && indices@[q] as int == j),
        decreases indices@.len() - k,
    {
        let x = indices[k];
        if x < total {
            marks[x] = true;
        }
        assert forall|j: int| 0 <= j < total implies (#[trigger] marks@[j] <==> exists|q: int|
            0 <= q < k + 1 && indices@[q] as int == j) by {
            if j == x {
                assert(indices@[k as int] as int == j);
            } else if marks@[j] {
                let q = choose|q: int| 0 <= q < k && indices@[q] as int == j;
                assert(0 <= q < k + 1 && indices@[q] as int == j);
            }
        }
        k = k + 1;
    }
    marks
}

/// Keeps, in place, the items of `v` whose mark (at `base` plus their
/// position) is false.
fn compact(v: &mut Vec<ExactSearchResultItem>, marks: &Vec<bool>, base: usize)
    requires
        base + old(v)@.len() <= marks@.len(),
    ensures
        final(v)@ == without_positions(old(v)@, marked_from(marks@, base as int)),
        final(v)@.len() <= old(v)@.len(),
{
    let ghost del = marked_from(marks@, base as int);
    let ghost orig = v@;
    let n = v.len();
    let mlen = marks.len();
    let mut write: usize = 0;
    let mut read: usize = 0;
    while read < n
        invariant
            n == orig.len(),
            mlen == marks@.len(),
            del == marked_from(marks@, base as int),
            base + n <= marks@.len(),
            v@.len() == n,
            write <= read <= n,
            v@.take(write as int) == without_positions(orig.take(read as int), del),
            v@.subrange(read as int, n as int) == orig.subrange(read as int, n as int),
        decreases n - read,
    {
        let item = v[read];
        assert(item == orig[read as int]) by {
            assert(v@.subrange(read as int, n as int)[0] == orig.subrange(read as int, n as int)[0]);
        }
        assert(orig.take(read + 1).drop_last() =~= orig.take(read as int));
        if !marks[base + read] {
            let ghost before = v@;
            v[write] = item;
            assert(v@.take(write + 1) =~= before.take(write as int).push(item));
            assert(v@.subrange(read + 1, n as int) =~= before.subrange(read + 1, n as int));
            assert(before.subrange(read + 1, n as int) =~= before.subrange(read as int, n as int).drop_first());
            assert(orig.subrange(read + 1, n as int) =~= orig.subrange(read as int, n as int).drop_first());
            write = write + 1;
        } else {
            assert(del.contains(read as int));
            assert(v@.subrange(read + 1, n as int) =~= v@.subrange(read as int, n as int).drop_first());
            assert(orig.subrange(read + 1, n as int) =~= orig.subrange(read as int, n as int).drop_first());
        }
        read = read + 1;
    }
    v.truncate(write);
    assert(orig.take(n as int) =~= orig);
    assert(v@ =~= v@.take(write as int));
    proof {
        lemma_without_positions_len(orig, del);
    }
}

} // verus!

verus! {

/// Which kind of results the store keeps.  Only exact results are kept;
/// the fuzzy mode is reserved and every operation in it fails.
#[derive(Debug, Clone, Copy, PartialEq, Eq, Structural)]
pub enum SearchResultMode {
    Exact,
    Fuzzy,
}

/// The result store behind a mode switch.
pub struct SearchResultManager {
    current_mode: SearchResultMode,
    exact: ExactSearchResultManager,
}

impl SearchResultManager {
    pub closed spec fn mode_spec(&self) -> SearchResultMode {
        self.current_mode
    }

    /// The exact results.
    pub closed spec fn items(&self) -> Seq<ExactSearchResultItem> {
        self.exact.items()
    }

    pub closed spec fn wf(&self) -> bool {
        self.exact.wf()
    }

    pub fn new(memory_buffer_size: usize) -> (r: Self)
        ensures
            r.wf(),
            r.mode_spec() == SearchResultMode::Exact,
            r.items().len() == 0,
    {
        SearchResultManager {
            current_mode: SearchResultMode::Exact,
            exact: ExactSearchResultManager::new(memory_buffer_size),
        }
    }

    pub fn get_mode(&self) -> (r: SearchResultMode)
        ensures
            r == self.mode_spec(),
    {
        self.current_mode
    }

    /// Switches the mode; leaving exact mode drops its results, and leaving
    /// the fuzzy mode fails.
    pub fn set_mode(&mut self, mode: SearchResultMode) -> (r: Result<(), String>)
        requires
            old(self).wf(),
        ensures
            final(self).wf(),
            r is Err <==> mode != old(self).mode_spec() && old(self).mode_spec() == SearchResultMode::Fuzzy,
            r is Ok ==> final(self).mode_spec() == mode,
            r is Err ==> final(self).mode_spec() == old(self).mode_spec() && final(self).items() == old(self).items(),
            r is Ok && mode == old(self).mode_spec() ==> final(self).items() == old(self).items(),
            r is Ok && mode != old(self).mode_spec() ==> final(self).items().len() == 0,
    {
        if mode != self.current_mode {
            match self.current_mode {
                SearchResultMode::Exact => {
                    self.exact.clear();
                },
                SearchResultMode::Fuzzy => {
                    return Err("Fuzzy results are not supported".to_string());
                },
            }
        }
        self.current_mode = mode;
        Ok(())
    }

    /// Appends an exact result; fails in fuzzy mode or when the store is full.
    pub fn add_result(&mut self, item: ExactSearchResultItem) -> (r: Result<(), String>)
        requires
            old(self).wf(),
        ensures
            final(self).wf(),
            final(self).mode_spec() == old(self).mode_spec(),
            r is Ok <==> old(self).mode_spec() == SearchResultMode::Exact && old(self).items().len() < usize::MAX,
            r is Ok ==> final(self).items() == old(self).items().push(item),
            r is Err ==> final(self).items() == old(self).items(),
    {
        if self.current_mode == SearchResultMode::Fuzzy {
            return Err("Fuzzy results are not supported".to_string());
        }
        if self.exact.total_count() == usize::MAX {
            return Err("Result store is full".to_string());
        }
        self.exact.add_result(item);
        Ok(())
    }

    pub fn get_results(&self, start: usize, size: usize) -> (r: Result<Vec<ExactSearchResultItem>, String>)
        requires
            self.wf(),
        ensures
            r is Ok <==> self.mode_spec() == SearchResultMode::Exact,
            r matches Ok(v) ==> v@ == window(self.items(), start as int, size as int),
    {
        if self.current_mode == SearchResultMode::Fuzzy {
            return Err("Fuzzy results are not supported".to_string());
        }
        Ok(self.exact.get_results(start, size))
    }

    pub fn total_count(&self) -> (r: Result<usize, String>)
        requires
            self.wf(),
        ensures
            r is Ok <==> self.mode_spec() == SearchResultMode::Exact,
            r matches Ok(n) ==> n == self.items().len(),
    {
        if self.current_mode == SearchResultMode::Fuzzy {
            return Err("Fuzzy results are not supported".to_string());
        }
        Ok(self.exact.total_count())
    }

    pub fn clear(&mut self) -> (r: Result<(), String>)
        requires
            old(self).wf(),
        ensures
            final(self).wf(),
            final(self).mode_spec() == old(self).mode_spec(),
            r is Ok <==> old(self).mode_spec() == SearchResultMode::Exact,
            r is Ok ==> final(self).items().len() == 0,
            r is Err ==> final(self).items() == old(self).items(),
    {
        if self.current_mode == SearchResultMode::Fuzzy {
            return Err("Fuzzy results are not supported".to_string());
        }
        self.exact.clear();
        Ok(())
    }

    pub fn remove_result(&mut self, index: usize) -> (r: Result<(), String>)
        requires
            old(self).wf(),
        ensures
            final(self).wf(),
            final(self).mode_spec() == old(self).mode_spec(),
            r is Ok <==> old(self).mode_spec() == SearchResultMode::Exact && index < old(self).items().len(),
            r is Ok ==> final(self).items() == old(self).items().remove(index as int),
            r is Err ==> final(self).items() == old(self).items(),
    {
        if self.current_mode == SearchResultMode::Fuzzy {
            return Err("Fuzzy results are not supported".to_string());
        }
        self.exact.remove_result(index)
    }

    pub fn remove_results_batch(&mut self, indices: Vec<usize>) -> (r: Result<(), String>)
        requires
            old(self).wf(),
        ensures
            final(self).wf(),
            final(self).mode_spec() == old(self).mode_spec(),
            r is Ok <==> old(self).mode_spec() == SearchResultMode::Exact,
            r is Ok ==> final(self).items() == without_positions(old(self).items(), index_set(indices@)),
            r is Err ==> final(self).items() == old(self).items(),
    {
        if self.current_mode == SearchResultMode::Fuzzy {
            return Err("Fuzzy results are not supported".to_string());
        }
        self.exact.remove_results_batch(indices);
        Ok(())
    }

    pub fn keep_only_results(&mut self, keep_indices: Vec<usize>) -> (r: Result<(), String>)
        requires
            old(self).wf(),
        ensures
            final(self).wf(),
            final(self).mode_spec() == old(self).mode_spec(),
            r is Ok <==> old(self).mode_spec() == SearchResultMode::Exact,
            r is Ok ==> final(self).items() == at_positions(old(self).items(), index_set(keep_indices@)),
            r is Err ==> final(self).items() == old(self).items(),
    {
        if self.current_mode == SearchResultMode::Fuzzy {
            return Err("Fuzzy results are not supported".to_string());
        }
        self.exact.keep_only_results(keep_indices);
        Ok(())
    }

    pub fn get_all_exact_results(&self) -> (r: Result<Vec<ExactSearchResultItem>, String>)
        requires
            self.wf(),
        ensures
            r is Ok <==> self.mode_spec() == SearchResultMode::Exact,
            r matches Ok(v) ==> v@ == self.items(),
    {
        if self.current_mode == SearchResultMode::Fuzzy {
            return Err("Fuzzy results are not supported".to_string());
        }
        Ok(self.exact.get_all_results())
    }
}

} // verus!

verus! {

/// What a listing of results shows: an optional address range (inclusive)
/// and an optional set of types.
pub struct SearchFilter {
    pub enable_address_filter: bool,
    pub address_start: u64,
    pub address_end: u64,
    pub enable_type_filter: bool,
    pub type_ids: Vec<ValueType>,
}

impl SearchFilter {
    /// A filter that lets everything through.
    pub fn new() -> (r: Self)
        ensures
            !r.enable_address_filter,
            !r.enable_type_filter,
            r.type_ids@.len() == 0,
    {
        SearchFilter {
            enable_address_filter: false,
            address_start: 0,
            address_end: 0,
            enable_type_filter: false,
            type_ids: Vec::new(),
        }
    }

    pub fn is_active(&self) -> (r: bool)
        ensures
            r == (self.enable_address_filter || self.enable_type_filter),
    {
        self.enable_address_filter || self.enable_type_filter
    }

    /// Lets everything through again.
    pub fn clear(&mut self)
        ensures
            !final(self).enable_address_filter,
            !final(self).enable_type_filter,
            final(self).type_ids@.len() == 0,
    {
        *self = SearchFilter::new();
    }

    /// Sets the filter; type identifiers that name no type are dropped.
    pub fn set(&mut self, address_on: bool, start: u64, end: u64, type_on: bool, ids: &Vec<i32>)
        ensures
            final(self).enable_address_filter == address_on,
            final(self).address_start == start,
            final(self).address_end == end,
            final(self).enable_type_filter == type_on,
            forall|t: ValueType| #[trigger] final(self).type_ids@.contains(t) <==> ids@.contains(t.id_spec()),
    {
        let mut types: Vec<ValueType> = Vec::new();
        let mut i: usize = 0;
        while i < ids.len()
            invariant
                i <= ids@.len(),
                forall|t: ValueType| #[trigger] types@.contains(t) <==> ids@.take(i as int).contains(t.id_spec()),
            decreases ids@.len() - i,
        {
            let ghost prev = types@;
            match ValueType::from_id(ids[i]) {
                Some(t) => {
                    types.push(t);
                    proof {
                        assert forall|u: ValueType| #[trigger] types@.contains(u) <==> ids@.take(i + 1).contains(u.id_spec()) by {
                            let pre = ids@.take(i + 1);
                            let pre0 = ids@.take(i as int);
                            assert(pre =~= pre0.push(ids@[i as int]));
                            crate::types::lemma_id_round_trip(u);
                            if types@.contains(u) {
                                let k = choose|k: int| 0 <= k < types@.len() && types@[k] == u;
                                if k < prev.len() {
                                    assert(prev[k] == u);
                                    assert(prev.contains(u));
                                    let m = choose|m: int| 0 <= m < pre0.len() && #[trigger] pre0[m] == u.id_spec();
                                    assert(pre[m] == u.id_spec());
                                } else {
                                    assert(u == t);
                                    assert(pre[i as int] == u.id_spec());
                                }
                            }
                            if pre.contains(u.id_spec()) {
                                let m = choose|m: int| 0 <= m < pre.len() && #[trigger] pre[m] == u.id_spec();
                                if m < i {
                                    assert(pre0[m] == u.id_spec());
                                    assert(pre0.contains(u.id_spec()));
                                    assert(prev.contains(u));
                                    let k = choose|k: int| 0 <= k < prev.len() && prev[k] == u;
                                    assert(types@[k] == u);
                                } else {
                                    assert(t.id_spec() == u.id_spec());
                                    assert(u == t);
                                    assert(types@[prev.len() as int] == t);
                                }
                            }
                        }
                    }
                },
                None => {
                    proof {
                        assert forall|u: ValueType| #[trigger] types@.contains(u) <==> ids@.take(i + 1).contains(u.id_spec()) by {
                            assert(ids@.take(i + 1) =~= ids@.take(i as int).push(ids@[i as int]));
                            crate::types::lemma_id_round_trip(u);
                            let pre = ids@.take(i + 1);
                            if pre.contains(u.id_spec()) {
                                let k = choose|k: int| 0 <= k < pre.len() && #[trigger] pre[k] == u.id_spec();
                                if k < i {
                                    assert(ids@.take(i as int)[k] == u.id_spec());
                                }
                            }
                        }
                    }
                },
            }
            i = i + 1;
        }
        assert(ids@.take(ids@.len() as int) =~= ids@);
        self.enable_address_filter = address_on;
        self.address_start = start;
        self.address_end = end;
        self.enable_type_filter = type_on;
        self.type_ids = types;
    }

    /// Whether an item passes: inside the address range when that filter is
    /// on, and of a listed type when the type filter is on with types listed.
    pub open spec fn passes_spec(&self, item: ExactSearchResultItem) -> bool {
        &&& (self.enable_address_filter ==> self.address_start <= item.address <= self.address_end)
        &&& (self.enable_type_filter && self.type_ids@.len() > 0 ==> self.type_ids@.contains(item.typ))
    }

    pub fn passes(&self, item: &ExactSearchResultItem) -> (r: bool)
        ensures
            r == self.passes_spec(*item),
    {
        if self.enable_address_filter && (item.address < self.address_start || item.address > self.address_end) {
            return false;
        }
        if self.enable_type_filter && self.type_ids.len() > 0 {
            let mut i: usize = 0;
            while i < self.type_ids.len()
                invariant
                    i <= self.type_ids@.len(),
                    self.enable_type_filter && self.type_ids@.len() > 0,
                    self.enable_address_filter ==> self.address_start <= item.address <= self.address_end,
                    forall|j: int| 0 <= j < i ==> self.type_ids@[j] != item.typ,
                decreases self.type_ids@.len() - i,
            {
                if self.type_ids[i] == item.typ {
                    assert(self.type_ids@[i as int] == item.typ);
                    return true;
                }
                i = i + 1;
            }
            return false;
        }
        true
    }

    /// The items of `items` that pass, with their positions, in order.
    pub fn apply(&self, items: &Vec<ExactSearchResultItem>) -> (r: Vec<(usize, ExactSearchResultItem)>)
        ensures
            forall|k: int| 0 <= k < r@.len() ==> (#[trigger] r@[k]).0 < items@.len() && items@[r@[k].0 as int] == r@[k].1
                && self.passes_spec(r@[k].1),
            forall|i: int| 0 <= i < items@.len() && self.passes_spec(#[trigger] items@[i]) ==> exists|k: int|
                0 <= k < r@.len() && r@[k].0 == i,
            forall|a: int, b: int| 0 <= a < b < r@.len() ==> (#[trigger] r@[a]).0 < (#[trigger] r@[b]).0,
    {
        let mut out: Vec<(usize, ExactSearchResultItem)> = Vec::new();
        let mut i: usize = 0;
        while i < items.len()
            invariant
                i <= items@.len(),
                forall|k: int| 0 <= k < out@.len() ==> (#[trigger] out@[k]).0 < i && items@[out@[k].0 as int] == out@[k].1
                    && self.passes_spec(out@[k].1),
                forall|j: int| 0 <= j < i && self.passes_spec(#[trigger] items@[j]) ==> exists|k: int|
                    0 <= k < out@.len() && out@[k].0 == j,
                forall|a: int, b: int| 0 <= a < b < out@.len() ==> (#[trigger] out@[a]).0 < (#[trigger] out@[b]).0,
            decreases items@.len() - i,
        {
            let ghost prev = out@;
            if self.passes(&items[i]) {
                out.push((i, items[i]));
                assert forall|j: int| 0 <= j < i + 1 && self.passes_spec(#[trigger] items@[j]) implies exists|k: int|
                    0 <= k < out@.len() && out@[k].0 == j by {
                    if j < i {
                        let k = choose|k: int| 0 <= k < prev.len() && prev[k].0 == j;
                        assert(out@[k] == prev[k]);
                    } else {
                        assert(out@[prev.len() as int].0 == j);
                    }
                }
            }
            i = i + 1;
        }
        out
    }
}

} // verus!
