use vstd::prelude::*;
use crate::bitmap::{PageStatusBitmap, count_set, pages_spanned};
use crate::mock_memory::MemoryReader;
use crate::scan::{
    lemma_group_hits_inside, lemma_single_hit_aligned_and_read, query_types,
    search_in_buffer_group, search_in_buffer_group_deep_with_cancel, search_in_buffer_with_status, single_hit,
    values_within, values_added, lemma_values_own, lemma_values_chain, ResultMap, Window,
};
use crate::tree_map::BPlusTreeMap;
use crate::types::{SearchQuery, SearchValue};
use crate::scan::{anchor_hit, first_fixed_from, le_bytes_of, sweep_hit};

verus! {

/// Order of the per-region result maps.
pub const RESULT_ORDER: u16 = 256;

/// Address `a` can hold a `size`-byte value aligned to its size within
/// `[start, end)`.
pub open spec fn aligned_within(a: int, size: int, start: int, end: int) -> bool {
    a % size == 0 && start <= a && a + size <= end
}

fn zeroed(n: usize) -> (r: Vec<u8>)
    ensures
        r@.len() == n,
{
    let mut v: Vec<u8> = Vec::new();
    let mut i: usize = 0;
    while i < n
        invariant
            i <= n,
            v@.len() == i,
        decreases n - i,
    {
        v.push(0);
        i = i + 1;
    }
    v
}

/// The chunks a region scan reads: from `cur`, `cs` bytes at a time, the
/// last one cut at `end`.
pub open spec fn chunk_plan(cur: int, end: int, cs: int) -> Seq<(int, int)>
    decreases end - cur,
{
    if cs <= 0 || cur >= end {
        Seq::empty()
    } else {
        let e = if end - cur > cs {
            cur + cs
        } else {
            end
        };
        seq![(cur, e)] + chunk_plan(e, end, cs)
    }
}

/// What the read of one chunk gave: its bytes, its page marks, and whether
/// the read succeeded.
pub type ChunkRead = (Seq<u8>, Seq<bool>, bool);

/// A chunk is scanned when its read succeeded and fetched at least one page.
pub open spec fn chunk_used(r: ChunkRead) -> bool {
    r.2 && count_set(r.1) > 0
}

/// `reads` has one read per planned chunk, each of the chunk's length with
/// one mark per page it touches.
pub open spec fn reads_fit(plan: Seq<(int, int)>, reads: Seq<ChunkRead>) -> bool {
    &&& reads.len() == plan.len()
    &&& forall|i: int|
        0 <= i < reads.len() ==> (#[trigger] reads[i]).0.len() == plan[i].1 - plan[i].0 && reads[i].1.len()
            == pages_spanned((plan[i].1 - plan[i].0) as nat, plan[i].0 as nat)
}

/// The single-value hits of one chunk read at `addr`, up to `chunk_end`.
pub open spec fn chunk_single_hits(
    target: SearchValue,
    start: u64,
    addr: u64,
    chunk_end: u64,
    buf: Seq<u8>,
    pages: Seq<bool>,
    read_ok: bool,
) -> Set<u64> {
    if read_ok && count_set(pages) > 0 {
        Set::new(
            |a: u64|
                single_hit(buf, Window { buffer_addr: addr, region_start: start, region_end: chunk_end }, target, pages, a as int),
        )
    } else {
        Set::empty()
    }
}

/// The single-value hits of the first `n` chunks.
pub open spec fn region_single_hits(
    target: SearchValue,
    start: u64,
    plan: Seq<(int, int)>,
    reads: Seq<ChunkRead>,
    n: int,
) -> Set<u64> {
    Set::new(
        |a: u64|
            exists|i: int|
                0 <= i < n && #[trigger] chunk_single_hits(
                    target,
                    start,
                    plan[i].0 as u64,
                    plan[i].1 as u64,
                    reads[i].0,
                    reads[i].1,
                    reads[i].2,
                ).contains(a),
    )
}

/// One chunk of a single-value region scan: when its read succeeded and
/// fetched a page, the chunk is scanned within the region from `start`.
pub fn scan_chunk(
    buf: &[u8],
    addr: u64,
    start: u64,
    chunk_end: u64,
    target: &SearchValue,
    status: &PageStatusBitmap,
    read_ok: bool,
    results: &mut ResultMap,
)
    requires
        old(results).wf(),
        target.is_int_spec(),
        addr + buf@.len() + 8 <= u64::MAX,
        start + 8 <= u64::MAX,
        status.base_spec() == addr,
    ensures
        final(results).wf(),
        values_added(final(results), old(results), set![target.type_spec()]),
        final(results).key_seq().to_set() == old(results).key_seq().to_set().union(
            chunk_single_hits(*target, start, addr, chunk_end, buf@, status.marks(), read_ok),
        ),
{
    if read_ok && status.success_count() > 0 {
        search_in_buffer_with_status(buf, addr, start, chunk_end, target, status, results);
    } else {
        proof {
            lemma_values_own(results, set![target.type_spec()]);
            assert(results.key_seq().to_set().union(Set::<u64>::empty()) =~= results.key_seq().to_set());
        }
    }
}

/// Scans `[start, end)` for a single value, reading it in the chunks of
/// `chunk_plan` from the page holding `start`.  Whatever the reader returns,
/// the result is the union over the chunks whose read succeeded and fetched
/// a page of that chunk's hits, and every reported address is aligned to the
/// value's size and lies in the region.
pub fn search_region<R: MemoryReader>(
    reader: &R,
    target: &SearchValue,
    start: u64,
    end: u64,
    chunk_size: usize,
) -> (r: ResultMap)
    requires
        target.is_int_spec(),
        0 < chunk_size <= 0x1000_0000,
        start <= end <= 0xF000_0000_0000_0000,
    ensures
        r.wf(),
        values_within(&r, set![target.type_spec()]),
        forall|a: u64|
            r.key_seq().contains(a) ==> aligned_within(
                a as int,
                target.type_spec().size_spec() as int,
                start as int,
                end as int,
            ),
        exists|reads: Seq<ChunkRead>|
            #[trigger] reads_fit(chunk_plan(start - start % 4096, end as int, chunk_size as int), reads)
                && r.key_seq().to_set() == region_single_hits(
                *target,
                start,
                chunk_plan(start - start % 4096, end as int, chunk_size as int),
                reads,
                chunk_plan(start - start % 4096, end as int, chunk_size as int).len() as int,
            ),
{
    let mut results: ResultMap = BPlusTreeMap::new(RESULT_ORDER);
    let ghost size = target.type_spec().size_spec() as int;
    let mut current = start - start % 4096;
    let ghost plan = chunk_plan(current as int, end as int, chunk_size as int);
    let ghost mut reads: Seq<ChunkRead> = Seq::empty();
    proof {
        assert(results.key_seq().to_set() =~= region_single_hits(*target, start, plan, reads, 0));
    }
    while current < end
        invariant
            target.is_int_spec(),
            0 < chunk_size <= 0x1000_0000,
            start <= end <= 0xF000_0000_0000_0000,
            results.wf(),
            values_within(&results, set![target.type_spec()]),
            size == target.type_spec().size_spec(),
            forall|a: u64| results.key_seq().contains(a) ==> aligned_within(a as int, size, start as int, end as int),
            plan == chunk_plan(start - start % 4096, end as int, chunk_size as int),
            reads.len() <= plan.len(),
            chunk_plan(current as int, end as int, chunk_size as int) == plan.skip(reads.len() as int),
            forall|i: int|
                0 <= i < reads.len() ==> (#[trigger] reads[i]).0.len() == plan[i].1 - plan[i].0 && reads[i].1.len()
                    == pages_spanned((plan[i].1 - plan[i].0) as nat, plan[i].0 as nat),
            results.key_seq().to_set() == region_single_hits(*target, start, plan, reads, reads.len() as int),
        decreases end - current,
    {
        let chunk_end = if end - current > chunk_size as u64 {
            current + chunk_size as u64
        } else {
            end
        };
        proof {
            let rest = chunk_plan(current as int, end as int, chunk_size as int);
            assert(rest =~= seq![(current as int, chunk_end as int)] + chunk_plan(chunk_end as int, end as int, chunk_size as int));
            assert(plan.skip(reads.len() as int)[0] == plan[reads.len() as int]);
            assert(plan.skip(reads.len() as int + 1) =~= plan.skip(reads.len() as int).drop_first());
            assert(rest.drop_first() =~= chunk_plan(chunk_end as int, end as int, chunk_size as int));
        }
        let chunk_len = (chunk_end - current) as usize;
        let mut status = PageStatusBitmap::new(chunk_len, current);
        let mut buf = zeroed(chunk_len);
        let read = reader.read_memory(current, &mut buf, &mut status);
        let ghost before = results.key_seq();
        proof {
            assert forall|a: u64| before.to_set().contains(a) implies aligned_within(a as int, size, start as int, end as int) by {
                assert(before.contains(a));
            }
        }
        let ghost pre = results;
        scan_chunk(buf.as_slice(), current, start, chunk_end, target, &status, read.is_ok(), &mut results);
        proof {
            lemma_values_chain(&results, &pre, set![target.type_spec()], set![target.type_spec()]);
            let w = Window { buffer_addr: current, region_start: start, region_end: chunk_end };
            assert forall|a: u64| results.key_seq().contains(a) implies aligned_within(a as int, size, start as int, end as int) by {
                assert(results.key_seq().to_set().contains(a));
                if !before.to_set().contains(a) {
                    assert(single_hit(buf@, w, *target, status.marks(), a as int));
                    lemma_single_hit_aligned_and_read(buf@, w, *target, status.marks(), a as int);
                } else {
                    assert(before.contains(a));
                }
            }
            let n = reads.len() as int;
            let rd: ChunkRead = (buf@, status.marks(), read is Ok);
            let reads2 = reads.push(rd);
            assert(reads2[n] == rd);
            assert forall|i: int| 0 <= i < n implies reads2[i] == reads[i] by {}
            assert(plan.skip(n)[0] == plan[n]);
            assert(plan[n] == (current as int, chunk_end as int));
            assert(plan[n].0 as u64 == current);
            assert(plan[n].1 as u64 == chunk_end);
            assert(before.to_set() == region_single_hits(*target, start, plan, reads, n));
            assert(results.key_seq().to_set() == before.to_set().union(
                chunk_single_hits(*target, start, current, chunk_end, buf@, status.marks(), read is Ok),
            ));
            let hits2 = region_single_hits(*target, start, plan, reads2, n + 1);
            let hits1 = region_single_hits(*target, start, plan, reads, n);
            let here = chunk_single_hits(*target, start, current, chunk_end, buf@, status.marks(), read is Ok);
            assert forall|a: u64| results.key_seq().to_set().contains(a) <==> #[trigger] hits2.contains(a) by {
                if region_single_hits(*target, start, plan, reads2, n + 1).contains(a) {
                    let i = choose|i: int|
                        0 <= i < n + 1 && #[trigger] chunk_single_hits(
                            *target,
                            start,
                            plan[i].0 as u64,
                            plan[i].1 as u64,
                            reads2[i].0,
                            reads2[i].1,
                            reads2[i].2,
                        ).contains(a);
                    if i < n {
                        assert(reads2[i] == reads[i]);
                    }
                }
                if chunk_single_hits(*target, start, current, chunk_end, buf@, status.marks(), read is Ok).contains(a) {
                    assert(chunk_single_hits(
                        *target,
                        start,
                        plan[n].0 as u64,
                        plan[n].1 as u64,
                        reads2[n].0,
                        reads2[n].1,
                        reads2[n].2,
                    ).contains(a));
                }
                if region_single_hits(*target, start, plan, reads, n).contains(a) {
                    let i = choose|i: int|
                        0 <= i < n && #[trigger] chunk_single_hits(
                            *target,
                            start,
                            plan[i].0 as u64,
                            plan[i].1 as u64,
                            reads[i].0,
                            reads[i].1,
                            reads[i].2,
                        ).contains(a);
                    assert(reads2[i] == reads[i]);
                }
                assert(hits2.contains(a) <==> (hits1.contains(a) || here.contains(a)));
                assert(results.key_seq().to_set().contains(a) <==> (before.to_set().contains(a) || here.contains(a)));
            }
            assert(results.key_seq().to_set() =~= hits2);
            reads = reads2;
        }
        current = chunk_end;
    }
    proof {
        assert(chunk_plan(current as int, end as int, chunk_size as int) =~= Seq::<(int, int)>::empty());
        assert(reads.len() == plan.len());
        assert(reads_fit(plan, reads));
    }
    results
}

/// Smallest size among the first `n` values, and 8 when there are none.
pub open spec fn min_size_upto(vs: Seq<SearchValue>, n: int) -> int
    decreases n,
{
    if n <= 0 {
        8
    } else {
        let m = min_size_upto(vs, n - 1);
        let s = vs[n - 1].type_spec().size_spec() as int;
        if s < m {
            s
        } else {
            m
        }
    }
}

/// Smallest size among the query's values.
pub fn min_value_size(query: &SearchQuery) -> (r: u64)
    ensures
        1 <= r <= 8,
        r == min_size_upto(query.values@, query.values@.len() as int),
{
    let mut m: u64 = 8;
    let mut i: usize = 0;
    while i < query.values.len()
        invariant
            1 <= m <= 8,
            i <= query.values@.len(),
            m == min_size_upto(query.values@, i as int),
        decreases query.values@.len() - i,
    {
        let s = query.values[i].value_type().size() as u64;
        if s < m {
            m = s;
        }
        i = i + 1;
    }
    m
}

/// The addresses a group scan of one buffer reports: the exhaustive sweep
/// with `deep`, else the anchor-first scan, or the sweep when the query has
/// no fixed value.
pub open spec fn buffer_group_hits(q: SearchQuery, buf: Seq<u8>, w: Window, pages: Seq<bool>, min_size: int, deep: bool) -> Set<u64> {
    Set::new(
        |a: u64|
            if deep {
                sweep_hit(q, buf, w, pages, min_size, true, u64::MAX as int + 1, a as int)
            } else {
                match first_fixed_from(q.values@, 0) {
                    Some(k) => anchor_hit(
                        q,
                        buf,
                        w,
                        pages,
                        min_size,
                        k,
                        le_bytes_of(q.values@[k]->FixedInt_value as int, q.values@[k].type_spec().size_spec() as nat),
                        buf.len() as int,
                        a as int,
                    ),
                    None => sweep_hit(q, buf, w, pages, min_size, false, u64::MAX as int + 1, a as int),
                }
            },
    )
}

/// Pages of the kept overlap `[addr, addr + range)`.
pub open spec fn overlap_page_count(addr: int, range: int) -> int {
    (addr + range + 4095) / 4096 - addr / 4096
}

/// Marks of a combined read: the first `ov` pages (the kept overlap, read
/// before) and the new chunk's marks shifted by `off` pages.
pub open spec fn combined_marks(n: nat, ov: int, off: int, p: Seq<bool>) -> Seq<bool> {
    Seq::new(n, |x: int| x < ov || (off <= x && x - off < p.len() && p[x - off]))
}

/// Chunk `i` is scanned together with the kept end of chunk `i - 1`: that
/// chunk was scanned, holds `range` bytes, and the overlap starts no lower
/// than the region's first page.
pub open spec fn window_overlaps(plan: Seq<(int, int)>, reads: Seq<ChunkRead>, i: int, range: int, lower: int) -> bool {
    i > 0 && chunk_used(reads[i - 1]) && range <= reads[i - 1].0.len() && range <= plan[i].0 - lower
}

/// What a group scan of chunk `i` reports.
pub open spec fn group_chunk_hits(
    q: SearchQuery,
    start: u64,
    plan: Seq<(int, int)>,
    reads: Seq<ChunkRead>,
    i: int,
    lower: int,
    min_size: int,
    deep: bool,
) -> Set<u64> {
    let range = q.range as int;
    if !chunk_used(reads[i]) {
        Set::empty()
    } else if window_overlaps(plan, reads, i, range, lower) {
        let addr = plan[i].0 - range;
        let prev = reads[i - 1].0;
        let data = prev.skip(prev.len() - range) + reads[i].0;
        let marks = combined_marks(
            pages_spanned((range + reads[i].0.len()) as nat, addr as nat),
            overlap_page_count(addr, range),
            plan[i].0 / 4096 - addr / 4096,
            reads[i].1,
        );
        buffer_group_hits(q, data, Window { buffer_addr: addr as u64, region_start: start, region_end: plan[i].1 as u64 }, marks, min_size, deep)
    } else {
        buffer_group_hits(
            q,
            reads[i].0,
            Window { buffer_addr: plan[i].0 as u64, region_start: start, region_end: plan[i].1 as u64 },
            reads[i].1,
            min_size,
            deep,
        )
    }
}

/// What a group scan of the first `n` chunks reports.
pub open spec fn region_group_hits(
    q: SearchQuery,
    start: u64,
    plan: Seq<(int, int)>,
    reads: Seq<ChunkRead>,
    n: int,
    lower: int,
    min_size: int,
    deep: bool,
) -> Set<u64> {
    Set::new(|a: u64| exists|i: int| 0 <= i < n && #[trigger] group_chunk_hits(q, start, plan, reads, i, lower, min_size, deep).contains(a))
}

/// The bytes scanned with a chunk that follows a scanned one: the last
/// `range` bytes of the previous chunk, then the new chunk.
pub fn overlap_buffer(prev: &Vec<u8>, range: usize, buf: &Vec<u8>) -> (r: Vec<u8>)
    requires
        range <= prev@.len(),
    ensures
        r@ == prev@.skip(prev@.len() - range) + buf@,
{
    let mut combined: Vec<u8> = Vec::new();
    let mut i: usize = prev.len() - range;
    while i < prev.len()
        invariant
            range <= prev@.len(),
            prev@.len() - range <= i <= prev@.len(),
            combined@ == prev@.subrange(prev@.len() - range, i as int),
        decreases prev@.len() - i,
    {
        combined.push(prev[i]);
        i = i + 1;
        assert(combined@ =~= prev@.subrange(prev@.len() - range, i as int));
    }
    let mut j: usize = 0;
    while j < buf.len()
        invariant
            j <= buf@.len(),
            combined@ == prev@.skip(prev@.len() - range) + buf@.take(j as int),
        decreases buf@.len() - j,
    {
        combined.push(buf[j]);
        j = j + 1;
        assert(combined@ =~= prev@.skip(prev@.len() - range) + buf@.take(j as int));
    }
    assert(buf@.take(buf@.len() as int) =~= buf@);
    combined
}

/// Page marks for a buffer read at `current - range` that joins the kept
/// overlap (read before, so counted as read) to a chunk read at `current`.
pub fn overlap_status(status: &PageStatusBitmap, current: u64, range: usize, chunk_len: usize) -> (r: PageStatusBitmap)
    requires
        range <= current,
        current + chunk_len + range + 4095 <= u64::MAX,
        range <= 0x10000,
        chunk_len <= 0x1000_0000,
        status.base_spec() == current,
    ensures
        r.base_spec() == current - range,
        r.marks() == combined_marks(
            pages_spanned((range + chunk_len) as nat, (current - range) as nat),
            overlap_page_count(current - range, range as int),
            current / 4096 - (current - range) / 4096,
            status.marks(),
        ),
{
    let overlap_addr = current - range as u64;
    let mut cstatus = PageStatusBitmap::new(range + chunk_len, overlap_addr);
    let ghost n = cstatus.marks().len();
    let overlap_pages = ((overlap_addr + range as u64 + 4095) / 4096 - overlap_addr / 4096) as usize;
    let mut p: usize = 0;
    while p < overlap_pages
        invariant
            cstatus.base_spec() == overlap_addr,
            cstatus.marks().len() == n,
            p <= overlap_pages,
            forall|x: int| 0 <= x < n ==> (#[trigger] cstatus.marks()[x] <==> x < p),
        decreases overlap_pages - p,
    {
        cstatus.mark_success(p);
        p = p + 1;
    }
    let page_offset = (current / 4096 - overlap_addr / 4096) as usize;
    assert(page_offset <= 17);
    let np = status.num_pages();
    let cn = cstatus.num_pages();
    let limit = if cn > page_offset {
        cn - page_offset
    } else {
        0
    };
    let mut q: usize = 0;
    while q < np && q < limit
        invariant
            cstatus.base_spec() == overlap_addr,
            cstatus.marks().len() == n,
            cn == n,
            limit == (if cn > page_offset { cn - page_offset } else { 0 }),
            page_offset <= 17,
            page_offset == current / 4096 - overlap_addr / 4096,
            np == status.marks().len(),
            q <= np,
            forall|x: int|
                0 <= x < n ==> (#[trigger] cstatus.marks()[x] <==> (x < overlap_pages || (page_offset <= x
                    && x - page_offset < q && status.marks()[x - page_offset]))),
        decreases np - q,
    {
        if status.is_page_success(q) {
            cstatus.mark_success(page_offset + q);
        }
        q = q + 1;
    }
    assert(cstatus.marks() =~= combined_marks(
        pages_spanned((range + chunk_len) as nat, overlap_addr as nat),
        overlap_page_count(overlap_addr as int, range as int),
        current / 4096 - overlap_addr / 4096,
        status.marks(),
    ));
    cstatus
}

/// Group scan of one buffer, greedy or exhaustive; what it adds lies in the
/// buffer and below the region's end.
fn scan_group_buffer<C: Fn() -> bool>(
    buffer: &[u8],
    w: &Window,
    min_size: u64,
    query: &SearchQuery,
    pages: &PageStatusBitmap,
    deep: bool,
    results: &mut ResultMap,
    cancel: &C,
) -> (completed: bool)
    requires
        call_requires(*cancel, ()),
        old(results).wf(),
        values_within(old(results), query_types(*query)),
        query.all_int(),
        query.values@.len() <= 64,
        0 < min_size <= 8,
        w.buffer_addr + buffer@.len() + 140000 <= u64::MAX,
        w.region_start + 16 <= u64::MAX,
        pages.base_spec() == w.buffer_addr,
    ensures
        final(results).wf(),
        values_within(final(results), query_types(*query)),
        completed ==> forall|a: u64| #[trigger] final(results).key_seq().contains(a) ==> old(results).key_seq().contains(a) || (w.buffer_addr <= a < w.region_end),
        completed ==> final(results).key_seq().to_set() == old(results).key_seq().to_set().union(
            buffer_group_hits(*query, buffer@, *w, pages.marks(), min_size as int, deep),
        ),
        (forall|b: bool| call_ensures(*cancel, (), b) ==> !b) ==> completed,
{
    let ghost before = results.key_seq();
    let completed = if deep {
        search_in_buffer_group_deep_with_cancel(buffer, w, min_size, query, pages, results, cancel)
    } else {
        search_in_buffer_group(buffer, w, min_size, query, pages, results);
        true
    };
    if !completed {
        return false;
    }
    proof {
        assert(results.key_seq().to_set() =~= before.to_set().union(
            buffer_group_hits(*query, buffer@, *w, pages.marks(), min_size as int, deep),
        ));
        assert forall|a: u64| #[trigger] results.key_seq().contains(a) implies before.contains(a) || (w.buffer_addr <= a < w.region_end) by {
            assert(results.key_seq().to_set().contains(a));
            if !before.to_set().contains(a) {
                lemma_group_hits_inside(*query, buffer@, *w, pages.marks(), min_size as int, a as int);
            } else {
                assert(before.contains(a));
            }
        }
    }
    completed
}

/// Scans `[start, end)` for a group, reading it in the chunks of
/// `chunk_plan`.  The last `range` bytes of a successfully read chunk are
/// kept and scanned again together with the next chunk (read at
/// `current - range`, the kept pages counting as read), so groups
/// straddling a chunk border are found.  With `deep`, every combination is
/// reported, else the greedy match.  Whatever the reader returns, a scan that
/// runs to its end reports the union over the chunks of `group_chunk_hits`.
pub fn search_region_group_with_cancel<R: MemoryReader, C: Fn() -> bool>(
    reader: &R,
    query: &SearchQuery,
    start: u64,
    end: u64,
    chunk_size: usize,
    deep: bool,
    cancel: &C,
) -> (r: Option<ResultMap>)
    requires
        call_requires(*cancel, ()),
        query.all_int(),
        1 <= query.values@.len() <= 64,
        0 < chunk_size <= 0x1000_0000,
        start <= end <= 0xF000_0000_0000_0000,
    ensures
        r matches Some(m) ==> m.wf() && values_within(&m, query_types(*query)) && forall|a: u64|
            #[trigger] m.key_seq().contains(a) ==> start - start % 4096 <= a < end,
        r matches Some(m) ==> exists|reads: Seq<ChunkRead>|
            #[trigger] reads_fit(chunk_plan(start - start % 4096, end as int, chunk_size as int), reads)
                && m.key_seq().to_set() == region_group_hits(
                *query,
                start,
                chunk_plan(start - start % 4096, end as int, chunk_size as int),
                reads,
                chunk_plan(start - start % 4096, end as int, chunk_size as int).len() as int,
                start - start % 4096,
                min_size_upto(query.values@, query.values@.len() as int),
                deep,
            ),
        (forall|b: bool| call_ensures(*cancel, (), b) ==> !b) ==> r is Some,
{
    let mut results: ResultMap = BPlusTreeMap::new(RESULT_ORDER);
    let min_size = min_value_size(query);
    let range = query.range as usize;
    let lower = start - start % 4096;
    let mut current = lower;
    let mut first = true;
    let mut prev_valid = false;
    let mut prev: Vec<u8> = Vec::new();
    let ghost plan = chunk_plan(current as int, end as int, chunk_size as int);
    let ghost mut reads: Seq<ChunkRead> = Seq::empty();
    proof {
        assert(results.key_seq().to_set() =~= region_group_hits(*query, start, plan, reads, 0, lower as int, min_size as int, deep));
    }
    while current < end
        invariant
            query.all_int(),
            1 <= query.values@.len() <= 64,
            0 < chunk_size <= 0x1000_0000,
            start <= end <= 0xF000_0000_0000_0000,
            min_size == min_size_upto(query.values@, query.values@.len() as int),
            1 <= min_size <= 8,
            range == query.range,
            results.wf(),
            values_within(&results, query_types(*query)),
            lower == start - start % 4096,
            lower <= current,
            lower <= start,
            forall|a: u64| #[trigger] results.key_seq().contains(a) ==> lower <= a < end,
            call_requires(*cancel, ()),
            plan == chunk_plan(lower as int, end as int, chunk_size as int),
            reads.len() <= plan.len(),
            chunk_plan(current as int, end as int, chunk_size as int) == plan.skip(reads.len() as int),
            forall|i: int|
                0 <= i < reads.len() ==> (#[trigger] reads[i]).0.len() == plan[i].1 - plan[i].0 && reads[i].1.len()
                    == pages_spanned((plan[i].1 - plan[i].0) as nat, plan[i].0 as nat),
            reads.len() > 0 ==> prev@ == reads.last().0 && prev_valid == chunk_used(reads.last()),
            reads.len() == 0 ==> !prev_valid,
            prev_valid ==> !first,
            results.key_seq().to_set() == region_group_hits(*query, start, plan, reads, reads.len() as int, lower as int, min_size as int, deep),
        decreases end - current,
    {
        let chunk_end = if end - current > chunk_size as u64 {
            current + chunk_size as u64
        } else {
            end
        };
        let ghost n = reads.len() as int;
        proof {
            let rest = chunk_plan(current as int, end as int, chunk_size as int);
            assert(rest =~= seq![(current as int, chunk_end as int)] + chunk_plan(chunk_end as int, end as int, chunk_size as int));
            assert(plan.skip(n)[0] == plan[n]);
            assert(plan[n] == (current as int, chunk_end as int));
            assert(plan.skip(n + 1) =~= plan.skip(n).drop_first());
            assert(rest.drop_first() =~= chunk_plan(chunk_end as int, end as int, chunk_size as int));
        }
        let chunk_len = (chunk_end - current) as usize;
        let mut status = PageStatusBitmap::new(chunk_len, current);
        let mut buf = zeroed(chunk_len);
        let read = reader.read_memory(current, &mut buf, &mut status);
        let ghost rd: ChunkRead = (buf@, status.marks(), read is Ok);
        let ghost reads2 = reads.push(rd);
        let ghost before = results.key_seq().to_set();
        proof {
            assert(reads2[n] == rd);
            assert forall|i: int| 0 <= i < n implies reads2[i] == reads[i] by {}
            assert forall|i: int| 0 <= i < n implies #[trigger] group_chunk_hits(*query, start, plan, reads2, i, lower as int, min_size as int, deep)
                == group_chunk_hits(*query, start, plan, reads, i, lower as int, min_size as int, deep) by {
                assert(reads2[i] == reads[i]);
                if i > 0 {
                    assert(reads2[i - 1] == reads[i - 1]);
                }
            }
            if n > 0 {
                assert(reads2[n - 1] == reads.last());
            }
        }
        let used = read.is_ok() && status.success_count() > 0;
        let ghost here = group_chunk_hits(*query, start, plan, reads2, n, lower as int, min_size as int, deep);
        if used {
            if !first && prev_valid && range <= prev.len() && range as u64 <= current - lower {
                let overlap_addr = current - range as u64;
                let combined = overlap_buffer(&prev, range, &buf);
                let cstatus = overlap_status(&status, current, range, chunk_len);
                let w = Window { buffer_addr: overlap_addr, region_start: start, region_end: chunk_end };
                proof {
                    assert(window_overlaps(plan, reads2, n, range as int, lower as int));
                }
                if !scan_group_buffer(combined.as_slice(), &w, min_size, query, &cstatus, deep, &mut results, cancel) {
                    return None;
                }
            } else {
                let w = Window { buffer_addr: current, region_start: start, region_end: chunk_end };
                proof {
                    assert(!window_overlaps(plan, reads2, n, range as int, lower as int));
                }
                if !scan_group_buffer(buf.as_slice(), &w, min_size, query, &status, deep, &mut results, cancel) {
                    return None;
                }
            }
            first = false;
            prev_valid = true;
        } else {
            prev_valid = false;
            proof {
                assert(here =~= Set::<u64>::empty());
                assert(results.key_seq().to_set() =~= before.union(here));
            }
        }
        proof {
            assert(results.key_seq().to_set() == before.union(here));
            let hits1 = region_group_hits(*query, start, plan, reads, n, lower as int, min_size as int, deep);
            let hits2 = region_group_hits(*query, start, plan, reads2, n + 1, lower as int, min_size as int, deep);
            assert forall|a: u64| results.key_seq().to_set().contains(a) <==> #[trigger] hits2.contains(a) by {
                if hits2.contains(a) {
                    let i = choose|i: int| 0 <= i < n + 1 && #[trigger] group_chunk_hits(*query, start, plan, reads2, i, lower as int, min_size as int, deep).contains(a);
                    if i < n {
                        assert(hits1.contains(a));
                    }
                }
                if hits1.contains(a) {
                    let i = choose|i: int| 0 <= i < n && #[trigger] group_chunk_hits(*query, start, plan, reads, i, lower as int, min_size as int, deep).contains(a);
                    assert(group_chunk_hits(*query, start, plan, reads2, i, lower as int, min_size as int, deep).contains(a));
                }
                if here.contains(a) {
                    assert(group_chunk_hits(*query, start, plan, reads2, n, lower as int, min_size as int, deep).contains(a));
                }
            }
            assert(results.key_seq().to_set() =~= hits2);
            reads = reads2;
        }
        prev = buf;
        current = chunk_end;
    }
    proof {
        assert(chunk_plan(current as int, end as int, chunk_size as int) =~= Seq::<(int, int)>::empty());
        assert(reads.len() == plan.len());
        assert(reads_fit(plan, reads));
    }
    Some(results)
}

/// Group scan of a region run to its end; see `search_region_group_with_cancel`.
pub fn search_region_group<R: MemoryReader>(
    reader: &R,
    query: &SearchQuery,
    start: u64,
    end: u64,
    chunk_size: usize,
    deep: bool,
) -> (r: ResultMap)
    requires
        query.all_int(),
        1 <= query.values@.len() <= 64,
        0 < chunk_size <= 0x1000_0000,
        start <= end <= 0xF000_0000_0000_0000,
    ensures
        r.wf(),
        values_within(&r, query_types(*query)),
        forall|a: u64| #[trigger] r.key_seq().contains(a) ==> start - start % 4096 <= a < end,
        exists|reads: Seq<ChunkRead>|
            #[trigger] reads_fit(chunk_plan(start - start % 4096, end as int, chunk_size as int), reads)
                && r.key_seq().to_set() == region_group_hits(
                *query,
                start,
                chunk_plan(start - start % 4096, end as int, chunk_size as int),
                reads,
                chunk_plan(start - start % 4096, end as int, chunk_size as int).len() as int,
                start - start % 4096,
                min_size_upto(query.values@, query.values@.len() as int),
                deep,
            ),
{
    let never = || -> (b: bool)
        ensures
            !b,
    { false };
    match search_region_group_with_cancel(reader, query, start, end, chunk_size, deep, &never) {
        Some(m) => m,
        None => BPlusTreeMap::new(RESULT_ORDER),
    }
}

} // verus!
