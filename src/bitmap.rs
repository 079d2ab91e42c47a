use vstd::prelude::*;

verus! {

/// Size of a page of the target's memory.
pub const PAGE_SIZE: u64 = 4096;

/// Number of pages touched by `[base, base + length)`.
pub open spec fn pages_spanned(length: nat, base: nat) -> nat {
    ((base + length + 4095) / 4096 - base / 4096) as nat
}

/// Per-page success marks for one read, indexed by page number relative to
/// the page that holds the read's first byte.
pub struct PageStatusBitmap {
    bits: Vec<bool>,
    base_addr: u64,
}

/// `runs` lists, in order, the maximal runs `[start, end)` of set marks.
pub open spec fn maximal_runs(bits: Seq<bool>, runs: Seq<(usize, usize)>) -> bool {
    &&& forall|k: int| 0 <= k < runs.len() ==> (#[trigger] runs[k]).0 < runs[k].1 <= bits.len()
    &&& forall|k: int| 0 < k < runs.len() ==> runs[k - 1].1 < (#[trigger] runs[k]).0
    &&& forall|p: int|
        0 <= p < bits.len() ==> (#[trigger] bits[p] <==> covered(runs, p))
}

pub open spec fn in_run(runs: Seq<(usize, usize)>, k: int, p: int) -> bool {
    0 <= k < runs.len() && runs[k].0 <= p < runs[k].1
}

/// Page `p` lies in one of the runs.
pub open spec fn covered(runs: Seq<(usize, usize)>, p: int) -> bool {
    exists|k: int| #[trigger] in_run(runs, k, p)
}

/// Number of set marks.
pub open spec fn count_set(bits: Seq<bool>) -> nat
    decreases bits.len(),
{
    if bits.len() == 0 {
        0
    } else {
        count_set(bits.drop_last()) + if bits.last() {
            1nat
        } else {
            0nat
        }
    }
}

impl PageStatusBitmap {
    pub closed spec fn marks(&self) -> Seq<bool> {
        self.bits@
    }

    pub closed spec fn base_spec(&self) -> u64 {
        self.base_addr
    }

    /// A bitmap with every page marked failed.
    pub fn new(length: usize, base_addr: u64) -> (r: Self)
        requires
            base_addr + length + 4095 <= u64::MAX,
        ensures
            r.marks().len() == pages_spanned(length as nat, base_addr as nat),
            forall|i: int| 0 <= i < r.marks().len() ==> !(#[trigger] r.marks()[i]),
            r.base_spec() == base_addr,
    {
        let first = base_addr / PAGE_SIZE;
        let last = (base_addr + length as u64 + (PAGE_SIZE - 1)) / PAGE_SIZE;
        let n = (last - first) as usize;
        let mut bits: Vec<bool> = Vec::new();
        let mut i: usize = 0;
        while i < n
            invariant
                i <= n,
                bits@.len() == i,
                forall|j: int| 0 <= j < i ==> !(#[trigger] bits@[j]),
            decreases n - i,
        {
            bits.push(false);
            i = i + 1;
        }
        PageStatusBitmap { bits, base_addr }
    }

    pub fn num_pages(&self) -> (r: usize)
        ensures
            r == self.marks().len(),
    {
        self.bits.len()
    }

    pub fn base_addr(&self) -> (r: u64)
        ensures
            r == self.base_spec(),
    {
        self.base_addr
    }

    pub fn mark_success(&mut self, page: usize)
        ensures
            page < old(self).marks().len() ==> final(self).marks() == old(self).marks().update(
                page as int,
                true,
            ),
            page >= old(self).marks().len() ==> final(self).marks() == old(self).marks(),
            final(self).base_spec() == old(self).base_spec(),
    {
        if page < self.bits.len() {
            self.bits[page] = true;
        }
    }

    pub fn mark_failed(&mut self, page: usize)
        ensures
            page < old(self).marks().len() ==> final(self).marks() == old(self).marks().update(
                page as int,
                false,
            ),
            page >= old(self).marks().len() ==> final(self).marks() == old(self).marks(),
            final(self).base_spec() == old(self).base_spec(),
    {
        if page < self.bits.len() {
            self.bits[page] = false;
        }
    }

    pub fn is_page_success(&self, page: usize) -> (r: bool)
        ensures
            r == (page < self.marks().len() && self.marks()[page as int]),
    {
        page < self.bits.len() && self.bits[page]
    }

    pub fn success_count(&self) -> (r: usize)
        ensures
            r == count_set(self.marks()),
    {
        let mut c: usize = 0;
        let mut i: usize = 0;
        while i < self.bits.len()
            invariant
                i <= self.bits@.len(),
                c == count_set(self.bits@.take(i as int)),
                c <= i,
            decreases self.bits@.len() - i,
        {
            assert(self.bits@.take(i + 1).drop_last() =~= self.bits@.take(i as int));
            if self.bits[i] {
                c = c + 1;
            }
            i = i + 1;
        }
        assert(self.bits@.take(self.bits@.len() as int) =~= self.bits@);
        c
    }

    /// The pages marked failed, ascending.
    pub fn failed_pages(&self) -> (r: Vec<usize>)
        ensures
            forall|p: int|
                0 <= p < self.marks().len() ==> (!self.marks()[p] <==> r@.contains(p as usize)),
            forall|k: int| 0 <= k < r@.len() ==> (#[trigger] r@[k]) < self.marks().len(),
    {
        let mut out: Vec<usize> = Vec::new();
        let mut i: usize = 0;
        while i < self.bits.len()
            invariant
                i <= self.bits@.len(),
                forall|p: int| 0 <= p < i ==> (!self.bits@[p] <==> out@.contains(p as usize)),
                forall|k: int| 0 <= k < out@.len() ==> (#[trigger] out@[k]) < i,
            decreases self.bits@.len() - i,
        {
            let ghost prev = out@;
            if !self.bits[i] {
                out.push(i);
                assert(out@[prev.len() as int] == i);
                assert forall|p: int| 0 <= p < i + 1 implies (!self.bits@[p] <==> out@.contains(
                    p as usize,
                )) by {
                    if p < i {
                        if prev.contains(p as usize) {
                            let w = choose|w: int| 0 <= w < prev.len() && prev[w] == p as usize;
                            assert(out@[w] == p as usize);
                        }
                        if out@.contains(p as usize) {
                            let w = choose|w: int| 0 <= w < out@.len() && out@[w] == p as usize;
                            if w < prev.len() {
                                assert(prev[w] == p as usize);
                            }
                        }
                    }
                }
            } else {
                assert forall|p: int| 0 <= p < i + 1 implies (!self.bits@[p] <==> out@.contains(
                    p as usize,
                )) by {
                    if p == i && out@.contains(p as usize) {
                        let w = choose|w: int| 0 <= w < out@.len() && out@[w] == p as usize;
                        assert(out@[w] < i);
                    }
                }
            }
            i = i + 1;
        }
        out
    }

    /// The maximal runs of successful pages, as `[start, end)` page ranges.
    pub fn get_success_page_ranges(&self) -> (r: Vec<(usize, usize)>)
        ensures
            maximal_runs(self.marks(), r@),
    {
        let bits = &self.bits;
        let n = bits.len();
        let mut out: Vec<(usize, usize)> = Vec::new();
        let mut i: usize = 0;
        while i < n
            invariant
                n == bits@.len(),
                i <= n,
                i < n ==> (i == 0 || !bits@[i - 1]),
                forall|k: int| 0 <= k < out@.len() ==> (#[trigger] out@[k]).0 < out@[k].1 < i || (out@[k].0 < out@[k].1 == i),
                forall|k: int| 0 <= k < out@.len() ==> (#[trigger] out@[k]).1 <= n,
                forall|k: int| 0 < k < out@.len() ==> out@[k - 1].1 < (#[trigger] out@[k]).0,
                out@.len() > 0 ==> out@[out@.len() - 1].1 <= i,
                out@.len() > 0 && i < n ==> out@[out@.len() - 1].1 < i,
                forall|p: int|
                    0 <= p < i ==> (#[trigger] bits@[p] <==> covered(out@, p)),
            decreases n - i,
        {
            if bits[i] {
                let start = i;
                while i < n && bits[i]
                    invariant
                        n == bits@.len(),
                        start <= i <= n,
                        forall|p: int| start <= p < i ==> bits@[p],
                    decreases n - i,
                {
                    i = i + 1;
                }
                let ghost prev = out@;
                out.push((start, i));
                assert(out@[prev.len() as int] == (start, i));
                assert forall|p: int|
                    0 <= p < i implies (#[trigger] bits@[p] <==> covered(out@, p)) by {
                    if p < start {
                        if covered(out@, p) {
                            let k = choose|k: int| in_run(out@, k, p);
                            if k < prev.len() {
                                assert(prev[k] == out@[k]);
                                assert(in_run(prev, k, p));
                            }
                        }
                        if bits@[p] {
                            let k = choose|k: int| in_run(prev, k, p);
                            assert(out@[k] == prev[k]);
                            assert(in_run(out@, k, p));
                        }
                    } else {
                        assert(in_run(out@, prev.len() as int, p));
                    }
                }
                if i < n {
                    i = i + 1;
                    assert forall|p: int|
                        0 <= p < i implies (#[trigger] bits@[p] <==> covered(out@, p)) by {
                        if p == i - 1 {
                            if covered(out@, p) {
                                let k = choose|k: int| in_run(out@, k, p);
                                assert(out@[k].1 <= p);
                            }
                        }
                    }
                }
            } else {
                i = i + 1;
                assert forall|p: int|
                    0 <= p < i implies (#[trigger] bits@[p] <==> covered(out@, p)) by {
                    if p == i - 1 {
                        if covered(out@, p) {
                            let k = choose|k: int| in_run(out@, k, p);
                            assert(out@[k].1 <= p);
                        }
                    }
                }
            }
        }
        out
    }
}

} // verus!
