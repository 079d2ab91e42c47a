use vstd::prelude::*;
use crate::bitmap::PageStatusBitmap;
use crate::tree_map::BPlusTreeMap;
use crate::types::{SearchMode, SearchQuery, SearchValue, ValueType};
use crate::bytes::pow256;

verus! {

/// Matches found in one region: address to the type it matched as.
pub type ResultMap = BPlusTreeMap<u64, ValueType>;

pub open spec fn max_int(a: int, b: int) -> int {
    if a >= b {
        a
    } else {
        b
    }
}

pub open spec fn min_int(a: int, b: int) -> int {
    if a <= b {
        a
    } else {
        b
    }
}

/// The page of address `a`, counted from the page of `base`.
pub open spec fn page_index(base: int, a: int) -> int {
    a / 4096 - base / 4096
}

/// Address `a` lies in a page the read marked successful.
pub open spec fn page_ok(pages: Seq<bool>, base: int, a: int) -> bool {
    0 <= page_index(base, a) < pages.len() && pages[page_index(base, a)]
}

/// Where one read of a region can be scanned.
pub struct Window {
    pub buffer_addr: u64,
    pub region_start: u64,
    pub region_end: u64,
}

impl Window {
    pub open spec fn lo(self) -> int {
        max_int(self.buffer_addr as int, self.region_start as int)
    }

    pub open spec fn hi(self, len: nat) -> int {
        min_int(self.buffer_addr + len, self.region_end as int)
    }
}

/// Address `a` holds a match of `target` that a single-value scan of `buf`
/// (read at `w.buffer_addr`) reports: aligned to the type's size, wholly
/// inside the buffer and the region, in a successfully read page.
pub open spec fn single_hit(
    buf: Seq<u8>,
    w: Window,
    target: SearchValue,
    pages: Seq<bool>,
    a: int,
) -> bool {
    let size = target.type_spec().size_spec() as int;
    &&& a % size == 0
    &&& w.lo() <= a
    &&& a + size <= w.hi(buf.len())
    &&& page_ok(pages, w.buffer_addr as int, a)
    &&& target.matches_spec(buf.subrange(a - w.buffer_addr, buf.len() as int))
}

/// The members of `s` below `b`.
pub open spec fn below(s: Set<u64>, b: int) -> Set<u64> {
    Set::new(|a: u64| s.contains(a) && a < b)
}

/// All values of the map are among `types`.
pub open spec fn values_within(m: &ResultMap, types: Set<ValueType>) -> bool {
    forall|j: int| 0 <= j < m.val_seq().len() ==> types.contains(#[trigger] m.val_seq()[j])
}

/// Every value of `m` is one of `types` or was already a value of `before`:
/// what a scan adds is typed by the query.
pub open spec fn values_added(m: &ResultMap, before: &ResultMap, types: Set<ValueType>) -> bool {
    values_within(m, before.val_seq().to_set().union(types))
}

pub proof fn lemma_values_own(m: &ResultMap, types: Set<ValueType>)
    ensures
        values_within(m, m.val_seq().to_set().union(types)),
{
    assert forall|j: int| 0 <= j < m.val_seq().len() implies m.val_seq().to_set().union(types).contains(
        #[trigger] m.val_seq()[j],
    ) by {
        assert(m.val_seq().to_set().contains(m.val_seq()[j]));
    }
}

pub proof fn lemma_values_chain(m: &ResultMap, before: &ResultMap, types: Set<ValueType>, t: Set<ValueType>)
    requires
        values_added(m, before, types),
        values_within(before, t),
        types.subset_of(t),
    ensures
        values_within(m, t),
{
    assert forall|j: int| 0 <= j < m.val_seq().len() implies t.contains(#[trigger] m.val_seq()[j]) by {
        let v = m.val_seq()[j];
        if before.val_seq().to_set().contains(v) {
            let k = choose|k: int| 0 <= k < before.val_seq().len() && before.val_seq()[k] == v;
        }
    }
}

/// Records `addr` as a match of type `vt`, keeping an earlier record.
pub fn record(results: &mut ResultMap, addr: u64, vt: ValueType, types: Ghost<Set<ValueType>>)
    requires
        old(results).wf(),
        values_within(old(results), types@),
        types@.contains(vt),
    ensures
        final(results).wf(),
        final(results).key_seq().to_set() == old(results).key_seq().to_set().insert(addr),
        values_within(final(results), types@),
{
    let ghost before = results.val_seq();
    results.insert_new(addr, vt);
    proof {
        assert forall|j: int| 0 <= j < results.val_seq().len() implies types@.contains(
            #[trigger] results.val_seq()[j],
        ) by {
            if results.val_seq()[j] != vt {
                let k = choose|k: int| 0 <= k < before.len() && before[k] == results.val_seq()[j];
            }
        }
    }
}

proof fn lemma_aligned_gap(a: int, addr: int, size: int)
    requires
        size > 0,
        a % size == 0,
        addr % size == 0,
        addr <= a < addr + size,
    ensures
        a == addr,
{
    vstd::arithmetic::div_mod::lemma_fundamental_div_mod(a, size);
    vstd::arithmetic::div_mod::lemma_fundamental_div_mod(addr, size);
    let qa = a / size;
    let qb = addr / size;
    assert(qa == qb) by (nonlinear_arith)
        requires
            a == size * qa,
            addr == size * qb,
            addr <= a < addr + size,
            size > 0,
    ;
}

/// First multiple of `size` at or above `x`.
fn align_up(x: u64, size: u64) -> (r: u64)
    requires
        size > 0,
        x + size <= u64::MAX,
    ensures
        r % size == 0,
        x <= r < x + size,
{
    let rem = x % size;
    if rem == 0 {
        x
    } else {
        proof {
            vstd::arithmetic::div_mod::lemma_fundamental_div_mod(x as int, size as int);
            let q = x as int / size as int;
            assert((x + size - rem) == size * (q + 1)) by (nonlinear_arith)
                requires
                    x == size * q + rem,
            ;
            vstd::arithmetic::div_mod::lemma_mod_multiples_basic(q + 1, size as int);
            assert((size * (q + 1)) % (size as int) == 0) by (nonlinear_arith)
                requires
                    ((q + 1) * size) % (size as int) == 0,
            ;
        }
        x + size - rem
    }
}

/// Scans one read buffer for a single value, stepping by the value's size
/// over the aligned addresses of the region, skipping pages the read did not
/// fetch.  Every hit is recorded in `results`.
pub fn search_in_buffer_with_status(
    buffer: &[u8],
    buffer_addr: u64,
    region_start: u64,
    region_end: u64,
    target: &SearchValue,
    page_status: &PageStatusBitmap,
    results: &mut ResultMap,
)
    requires
        old(results).wf(),
        target.is_int_spec(),
        buffer_addr + buffer@.len() + 8 <= u64::MAX,
        region_start + 8 <= u64::MAX,
        page_status.base_spec() == buffer_addr,
    ensures
        final(results).wf(),
        values_added(final(results), old(results), set![target.type_spec()]),
        final(results).key_seq().to_set() == old(results).key_seq().to_set().union(
            Set::new(
                |a: u64|
                    single_hit(
                        buffer@,
                        Window { buffer_addr, region_start, region_end },
                        *target,
                        page_status.marks(),
                        a as int,
                    ),
            ),
        ),
{
    let ghost w = Window { buffer_addr, region_start, region_end };
    let ghost types = results.val_seq().to_set().union(set![target.type_spec()]);
    proof {
        lemma_values_own(results, set![target.type_spec()]);
    }
    let vt = target.value_type();
    let size = vt.size() as u64;
    let buffer_end = buffer_addr + buffer.len() as u64;
    let search_start = if buffer_addr >= region_start {
        buffer_addr
    } else {
        region_start
    };
    let search_end = if buffer_end <= region_end {
        buffer_end
    } else {
        region_end
    };
    let ghost hits = Set::new(
        |a: u64| single_hit(buffer@, w, *target, page_status.marks(), a as int),
    );
    let ghost start_keys = results.key_seq().to_set();
    if search_start >= search_end || search_end - search_start < size {
        assert(hits =~= Set::<u64>::empty());
        assert(start_keys.union(hits) =~= start_keys);
        return;
    }
    let mut addr = align_up(search_start, size);
    let first_page = buffer_addr / 4096;
    let blen = buffer.len();
    proof {
        assert forall|a: u64| !#[trigger] below(hits, addr as int).contains(a) by {
            if below(hits, addr as int).contains(a) {
                lemma_aligned_gap(addr as int, a as int, size as int);
            }
        }
        assert(start_keys.union(below(hits, addr as int)) =~= start_keys);
    }
    while addr <= search_end && search_end - addr >= size
        invariant
            results.wf(),
            values_within(results, types),
            types == old(results).val_seq().to_set().union(set![target.type_spec()]),
            vt == target.type_spec(),
            size == vt.size_spec(),
            size > 0,
            w == (Window { buffer_addr, region_start, region_end }),
            search_start == w.lo(),
            search_end == w.hi(buffer@.len()),
            buffer_end == buffer_addr + buffer@.len(),
            first_page == buffer_addr / 4096,
            blen == buffer@.len(),
            addr % size == 0,
            search_start <= addr,
            addr <= search_end + size,
            search_end + size <= u64::MAX,
            target.is_int_spec(),
            hits == Set::new(
                |a: u64| single_hit(buffer@, w, *target, page_status.marks(), a as int),
            ),
            results.key_seq().to_set() == start_keys.union(
                below(hits, addr as int),
            ),
        decreases search_end + size - addr,
    {
        assert(addr - buffer_addr <= blen);
        let offset = (addr - buffer_addr) as usize;
        assert(offset == addr - buffer_addr);
        let page = addr / 4096 - first_page;
        let ghost before = results.key_seq().to_set();
        let in_page = page < page_status.num_pages() as u64 && page_status.is_page_success(
            page as usize,
        );
        assert(in_page == page_ok(page_status.marks(), buffer_addr as int, addr as int));
        if in_page && target.matched_at(buffer, offset) {
            assert(single_hit(buffer@, w, *target, page_status.marks(), addr as int));
            record(results, addr, vt, Ghost(types));
        } else {
            assert(!single_hit(buffer@, w, *target, page_status.marks(), addr as int));
        }
        proof {
            assert forall|a: u64| #[trigger] below(hits, (addr + size) as int).contains(a) <==> (
            below(hits, addr as int).contains(a) || (a == addr && hits.contains(a))) by {
                if hits.contains(a) && addr <= a < addr + size {
                    lemma_aligned_gap(a as int, addr as int, size as int);
                }
            }
            assert(results.key_seq().to_set() =~= start_keys.union(
                below(hits, (addr + size) as int),
            ));
        }
        addr = addr + size;
    }
    proof {
        assert forall|a: u64| hits.contains(a) implies a < addr by {}
        assert(below(hits, addr as int) =~= hits);
    }
}

} // verus!

verus! {

/// The first offset `off + k * size` (for `k >= 0`) of the window `buf` at
/// which `v` matches, the value lying wholly inside the window.
pub open spec fn first_match(v: SearchValue, buf: Seq<u8>, off: int) -> Option<int>
    decreases buf.len() - off,
{
    let size = v.type_spec().size_spec() as int;
    if off < 0 || size <= 0 || off + size > buf.len() {
        None
    } else if v.matches_spec(buf.subrange(off, off + size)) {
        Some(off)
    } else {
        first_match(v, buf, off + size)
    }
}

/// Greedy ordered match of `vs[i..]` from offset `off`: each value is found
/// at its first position after the previous one.
pub open spec fn ordered_offsets(vs: Seq<SearchValue>, buf: Seq<u8>, base: int, i: int, off: int) -> Option<
    Seq<int>,
>
    decreases vs.len() - i,
{
    if i < 0 || i >= vs.len() {
        Some(Seq::empty())
    } else {
        match first_match(vs[i], buf, aligned_from(base, off, vs[i].type_spec().size_spec() as int)) {
            None => None,
            Some(o) => match ordered_offsets(vs, buf, base, i + 1, o + vs[i].type_spec().size_spec()) {
                Some(rest) => Some(seq![o] + rest),
                None => None,
            },
        }
    }
}

/// The first offset at or after `off` whose address (the window starts at
/// `base`) is a multiple of `size`.
pub open spec fn aligned_from(base: int, off: int, size: int) -> int {
    let r = (base + off) % size;
    if r == 0 {
        off
    } else {
        off + size - r
    }
}

/// The first aligned position of value `v` in the window.
pub open spec fn first_aligned(v: SearchValue, buf: Seq<u8>, base: int) -> Option<int> {
    first_match(v, buf, aligned_from(base, 0, v.type_spec().size_spec() as int))
}

/// Unordered match: every value at its own first aligned position in the window.
pub open spec fn unordered_offsets(vs: Seq<SearchValue>, buf: Seq<u8>, base: int) -> Option<Seq<int>> {
    if forall|i: int| 0 <= i < vs.len() ==> (#[trigger] first_aligned(vs[i], buf, base)) is Some {
        Some(Seq::new(vs.len(), |i: int| first_aligned(vs[i], buf, base)->Some_0))
    } else {
        None
    }
}

/// The offsets a group match of `q` finds in the window `buf`, whose first
/// byte is at address `base`; only addresses aligned to each value's size
/// are tried.
pub open spec fn group_offsets(q: SearchQuery, buf: Seq<u8>, base: int) -> Option<Seq<int>> {
    match q.mode {
        SearchMode::Ordered => ordered_offsets(q.values@, buf, base, 0, 0),
        SearchMode::Unordered => unordered_offsets(q.values@, buf, base),
    }
}

/// First offset at or after `off` whose address is a multiple of `size`.
fn align_offset(base: u64, off: usize, size: usize) -> (r: usize)
    requires
        size == 1 || size == 2 || size == 4 || size == 8,
        base + off + 8 <= u64::MAX,
        off + size <= usize::MAX,
    ensures
        r == aligned_from(base as int, off as int, size as int),
        off <= r < off + size,
{
    let rem = ((base + off as u64) % (size as u64)) as usize;
    if rem == 0 {
        off
    } else {
        off + size - rem
    }
}

pub proof fn lemma_aligned_from(base: int, off: int, size: int)
    requires
        size > 0,
    ensures
        (base + aligned_from(base, off, size)) % size == 0,
        off <= aligned_from(base, off, size) < off + size,
{
    let r = (base + off) % size;
    vstd::arithmetic::div_mod::lemma_fundamental_div_mod(base + off, size);
    let q = (base + off) / size;
    if r != 0 {
        assert(base + off + size - r == size * (q + 1)) by (nonlinear_arith)
            requires
                base + off == size * q + r,
        ;
        vstd::arithmetic::div_mod::lemma_mod_multiples_basic(q + 1, size);
        assert((size * (q + 1)) % size == 0) by (nonlinear_arith)
            requires
                ((q + 1) * size) % size == 0,
        ;
    }
}

/// A value found by stepping from an aligned offset is aligned.
pub proof fn lemma_first_match_step(v: SearchValue, buf: Seq<u8>, base: int, off: int)
    requires
        v.type_spec().size_spec() > 0,
        (base + off) % (v.type_spec().size_spec() as int) == 0,
    ensures
        first_match(v, buf, off) matches Some(o) ==> (base + o) % (v.type_spec().size_spec() as int) == 0,
    decreases buf.len() - off,
{
    let size = v.type_spec().size_spec() as int;
    if !(off < 0 || size <= 0 || off + size > buf.len()) && !v.matches_spec(buf.subrange(off, off + size)) {
        vstd::arithmetic::div_mod::lemma_mod_add_multiples_vanish(base + off, size);
        assert(base + (off + size) == size + (base + off));
        lemma_first_match_step(v, buf, base, off + size);
    }
}

/// Finds the first position of `v` in `buf[ws..we]` at or after `ws + off`
/// stepping by the value's size; the result is relative to `ws`.
fn find_first(v: &SearchValue, buf: &[u8], ws: usize, we: usize, off: usize) -> (r: Option<usize>)
    requires
        v.is_int_spec(),
        ws <= we <= buf@.len(),
    ensures
        r matches Some(o) ==> first_match(*v, buf@.subrange(ws as int, we as int), off as int)
            == Some(o as int),
        r is None ==> first_match(*v, buf@.subrange(ws as int, we as int), off as int) is None,
{
    let ghost win = buf@.subrange(ws as int, we as int);
    let size = v.value_type().size();
    let len = we - ws;
    let mut o = off;
    while o <= len && len - o >= size
        invariant
            size == v.type_spec().size_spec(),
            size > 0,
            len == win.len(),
            ws <= we <= buf@.len(),
            win == buf@.subrange(ws as int, we as int),
            v.is_int_spec(),
            first_match(*v, win, off as int) == first_match(*v, win, o as int),
        decreases len + 8 - o,
    {
        let hit = v.matched_at(buf, ws + o);
        assert(buf@.subrange(ws + o, buf@.len() as int).take(size as int) =~= win.subrange(
            o as int,
            o + size,
        ).take(size as int));
        if hit {
            return Some(o);
        }
        o = o + size;
    }
    None
}

} // verus!

verus! {

/// Greedy ordered match of the query's values in `buf[ws..we]`, whose
/// first byte is at address `base`; offsets are relative to `ws`.
pub fn try_match_ordered(buf: &[u8], ws: usize, we: usize, base: u64, query: &SearchQuery) -> (r: Option<
    Vec<usize>,
>)
    requires
        query.all_int(),
        ws <= we <= buf@.len(),
        base + (we - ws) + 16 <= u64::MAX,
    ensures
        r is Some <==> ordered_offsets(query.values@, buf@.subrange(ws as int, we as int), base as int, 0, 0) is Some,
        r matches Some(os) ==> os@.map_values(|o: usize| o as int) == ordered_offsets(
            query.values@,
            buf@.subrange(ws as int, we as int),
            base as int,
            0,
            0,
        )->Some_0,
{
    let ghost win = buf@.subrange(ws as int, we as int);
    let ghost vs = query.values@;
    let mut offsets: Vec<usize> = Vec::new();
    let mut cur: usize = 0;
    let mut i: usize = 0;
    while i < query.values.len()
        invariant
            query.all_int(),
            vs == query.values@,
            ws <= we <= buf@.len(),
            base + (we - ws) + 16 <= u64::MAX,
            win == buf@.subrange(ws as int, we as int),
            i <= vs.len(),
            offsets@.len() == i,
            cur <= win.len(),
            ordered_offsets(vs, win, base as int, 0, 0) is Some <==> ordered_offsets(vs, win, base as int, i as int, cur as int) is Some,
            ordered_offsets(vs, win, base as int, 0, 0) is Some ==> ordered_offsets(vs, win, base as int, 0, 0)->Some_0
                == offsets@.map_values(|o: usize| o as int) + ordered_offsets(vs, win, base as int, i as int, cur as int)->Some_0,
        decreases vs.len() - i,
    {
        let v = &query.values[i];
        let size = v.value_type().size();
        if we - ws - cur < size {
            proof {
                lemma_aligned_from(base as int, cur as int, size as int);
            }
            return None;
        }
        let from = align_offset(base, cur, size);
        match find_first(v, buf, ws, we, from) {
            None => {
                return None;
            },
            Some(o) => {
                proof {
                    lemma_first_match_bounds(*v, win, from as int);
                }
                let ghost prev = offsets@.map_values(|o: usize| o as int);
                offsets.push(o);
                proof {
                    let rest = ordered_offsets(vs, win, base as int, i + 1, o + size);
                    if rest is Some {
                        assert(offsets@.map_values(|o: usize| o as int) =~= prev.push(o as int));
                        assert(prev + (seq![o as int] + rest->Some_0) =~= prev.push(o as int) + rest->Some_0);
                    }
                }
                cur = o + size;
            },
        }
        i = i + 1;
    }
    proof {
        assert(offsets@.map_values(|o: usize| o as int) + Seq::<int>::empty() =~= offsets@.map_values(|o: usize| o as int));
    }
    Some(offsets)
}

pub proof fn lemma_first_match_bounds(v: SearchValue, buf: Seq<u8>, off: int)
    ensures
        first_match(v, buf, off) matches Some(o) ==> off <= o && o + v.type_spec().size_spec() <= buf.len(),
    decreases buf.len() - off,
{
    let size = v.type_spec().size_spec() as int;
    if !(off < 0 || size <= 0 || off + size > buf.len()) && !v.matches_spec(buf.subrange(off, off + size)) {
        lemma_first_match_bounds(v, buf, off + size);
    }
}

/// Unordered match: each of the query's values at its first aligned position
/// in `buf[ws..we]`, whose first byte is at address `base`; offsets are
/// relative to `ws`.
pub fn try_match_unordered(buf: &[u8], ws: usize, we: usize, base: u64, query: &SearchQuery) -> (r: Option<
    Vec<usize>,
>)
    requires
        query.all_int(),
        ws <= we <= buf@.len(),
        base + (we - ws) + 16 <= u64::MAX,
    ensures
        r is Some <==> unordered_offsets(query.values@, buf@.subrange(ws as int, we as int), base as int) is Some,
        r matches Some(os) ==> os@.map_values(|o: usize| o as int) == unordered_offsets(
            query.values@,
            buf@.subrange(ws as int, we as int),
            base as int,
        )->Some_0,
{
    let ghost win = buf@.subrange(ws as int, we as int);
    let ghost vs = query.values@;
    let mut offsets: Vec<usize> = Vec::new();
    let mut i: usize = 0;
    while i < query.values.len()
        invariant
            query.all_int(),
            vs == query.values@,
            ws <= we <= buf@.len(),
            base + (we - ws) + 16 <= u64::MAX,
            win == buf@.subrange(ws as int, we as int),
            i <= vs.len(),
            offsets@.len() == i,
            forall|j: int| 0 <= j < i ==> first_aligned(vs[j], win, base as int) == Some(#[trigger] offsets@[j] as int),
        decreases vs.len() - i,
    {
        let size = query.values[i].value_type().size();
        let from = align_offset(base, 0, size);
        match find_first(&query.values[i], buf, ws, we, from) {
            None => {
                assert(first_aligned(vs[i as int], win, base as int) is None);
                return None;
            },
            Some(o) => {
                offsets.push(o);
            },
        }
        i = i + 1;
    }
    assert forall|j: int| 0 <= j < vs.len() implies (#[trigger] first_aligned(vs[j], win, base as int)) is Some by {
        assert(first_aligned(vs[j], win, base as int) == Some(offsets@[j] as int));
    }
    assert(unordered_offsets(vs, win, base as int) is Some);
    assert(offsets@.map_values(|o: usize| o as int) =~= unordered_offsets(vs, win, base as int)->Some_0);
    Some(offsets)
}

/// The group match of `query` in `buf[ws..we]` (first byte at address
/// `base`) by its mode.
pub fn try_match_group_at_address(buf: &[u8], ws: usize, we: usize, base: u64, query: &SearchQuery) -> (r:
    Option<Vec<usize>>)
    requires
        query.all_int(),
        ws <= we <= buf@.len(),
        base + (we - ws) + 16 <= u64::MAX,
    ensures
        r is Some <==> group_offsets(*query, buf@.subrange(ws as int, we as int), base as int) is Some,
        r matches Some(os) ==> os@.map_values(|o: usize| o as int) == group_offsets(
            *query,
            buf@.subrange(ws as int, we as int),
            base as int,
        )->Some_0,
{
    match query.mode {
        SearchMode::Ordered => try_match_ordered(buf, ws, we, base, query),
        SearchMode::Unordered => try_match_unordered(buf, ws, we, base, query),
    }
}


} // verus!

verus! {

/// The type sizes of a query's values.
pub open spec fn query_types(q: SearchQuery) -> Set<ValueType> {
    Set::new(|t: ValueType| exists|i: int| 0 <= i < q.values@.len() && q.values@[i].type_spec() == t)
}

/// Address `a` is reported by a group match whose window starts at
/// `start` and ends at `end` (absolute addresses) in the buffer read at
/// `base`.
pub open spec fn window_hit(q: SearchQuery, buf: Seq<u8>, base: int, start: int, end: int, a: int) -> bool {
    &&& base <= start <= end <= base + buf.len()
    &&& group_offsets(q, buf.subrange(start - base, end - base), start) matches Some(os)
    &&& exists|j: int| 0 <= j < os.len() && a == start + #[trigger] os[j]
}

/// Window the sweep checks at `addr`: `range` bytes from `addr` (and, for
/// the exhaustive search of an unordered query, `range` bytes before it as
/// well), cut at the buffer and the region; `None` when that leaves fewer
/// than `range` bytes or `addr` is not a sweep position.
pub open spec fn sweep_window(q: SearchQuery, w: Window, len: nat, pages: Seq<bool>, min_size: int, deep: bool, addr: int) -> Option<(int, int)> {
    let s = if deep && q.mode == SearchMode::Unordered {
        max_int(sat_sub(addr, q.range as int), w.buffer_addr as int)
    } else {
        addr
    };
    let e = min_int(addr + q.range, w.hi(len));
    if addr % min_size == 0 && w.lo() <= addr && addr < w.hi(len) && page_ok(pages, w.buffer_addr as int, addr)
        && e - s >= q.range {
        Some((s, e))
    } else {
        None
    }
}

/// Address `a` is reported by the fallback sweep at a position below `bound`.
pub open spec fn sweep_hit(q: SearchQuery, buf: Seq<u8>, w: Window, pages: Seq<bool>, min_size: int, deep: bool, bound: int, a: int) -> bool {
    exists|addr: int| addr < bound && (#[trigger] sweep_window(q, w, buf.len(), pages, min_size, deep, addr) matches Some((s, e))
        && window_emits(q, buf, w.buffer_addr as int, s, e, deep, a))
}

/// What the window `[start, end)` emits: the greedy group match, or with
/// `deep` every address of every complete combination.
pub open spec fn window_emits(q: SearchQuery, buf: Seq<u8>, base: int, start: int, end: int, deep: bool, a: int) -> bool {
    if deep {
        base <= start <= end <= base + buf.len() && deep_node(q, buf.subrange(start - base, end - base), start, Seq::empty(), 0, a)
    } else {
        window_hit(q, buf, base, start, end, a)
    }
}

/// The addresses `start + os[k]` for `k < bound`.
pub open spec fn hits_of(start: int, os: Seq<int>, bound: int) -> Set<u64> {
    Set::new(|a: u64| exists|k: int| 0 <= k < bound && k < os.len() && a == start + #[trigger] os[k])
}

/// Records the addresses a window match reports.
fn record_window(
    results: &mut ResultMap,
    query: &SearchQuery,
    start: u64,
    offsets: &Vec<usize>,
    os: Ghost<Seq<int>>,
    types: Ghost<Set<ValueType>>,
)
    requires
        old(results).wf(),
        values_within(old(results), types@),
        query_types(*query).subset_of(types@),
        offsets@.map_values(|o: usize| o as int) == os@,
        os@.len() == query.values@.len(),
        forall|j: int| 0 <= j < os@.len() ==> start + #[trigger] os@[j] <= u64::MAX,
    ensures
        final(results).wf(),
        values_within(final(results), types@),
        final(results).key_seq().to_set() == old(results).key_seq().to_set().union(
            hits_of(start as int, os@, os@.len() as int),
        ),
{
    let ghost start_keys = results.key_seq().to_set();
    let mut j: usize = 0;
    while j < offsets.len()
        invariant
            results.wf(),
            values_within(results, types@),
            query_types(*query).subset_of(types@),
            offsets@.map_values(|o: usize| o as int) == os@,
            os@.len() == query.values@.len(),
            offsets@.len() == os@.len(),
            forall|k: int| 0 <= k < os@.len() ==> start + #[trigger] os@[k] <= u64::MAX,
            j <= offsets@.len(),
            results.key_seq().to_set() == start_keys.union(hits_of(start as int, os@, j as int)),
        decreases offsets@.len() - j,
    {
        assert(os@[j as int] == offsets@[j as int]);
        let a = start + offsets[j] as u64;
        let vt = query.values[j].value_type();
        assert(query_types(*query).contains(vt));
        assert(types@.contains(vt));
        record(results, a, vt, Ghost(types@));
        proof {
            assert forall|x: u64| hits_of(start as int, os@, j + 1).contains(x) <==> (hits_of(
                start as int,
                os@,
                j as int,
            ).contains(x) || x == a) by {
                if x == a {
                    assert(x == start + os@[j as int]);
                }
                if hits_of(start as int, os@, j + 1).contains(x) && x != a {
                    let k = choose|k: int| 0 <= k < j + 1 && k < os@.len() && x == start + #[trigger] os@[k];
                    assert(k < j);
                }
            }
            assert(results.key_seq().to_set() =~= start_keys.union(hits_of(start as int, os@, j + 1)));
        }
        j = j + 1;
    }
}

} // verus!

verus! {

/// `needle` occurs in `buf` at offset `c`.
pub open spec fn occurs(buf: Seq<u8>, c: int, needle: Seq<u8>) -> bool {
    0 <= c && c + needle.len() <= buf.len() && buf.subrange(c, c + needle.len()) == needle
}

/// Relies on `memchr::memmem::find`: the index of the first occurrence of
/// `needle` in `haystack[from..]`, relative to `from`.
#[verifier::external_body]
fn find_bytes(haystack: &[u8], from: usize, needle: &[u8]) -> (r: Option<usize>)
    requires
        from <= haystack@.len(),
    ensures
        r matches Some(p) ==> occurs(haystack@, from + p, needle@) && forall|q: int|
            from <= q < from + p ==> !occurs(haystack@, q, needle@),
        r is None ==> forall|q: int| from <= q ==> !occurs(haystack@, q, needle@),
{
    memchr::memmem::find(&haystack[from..], needle)
}

/// The `n` little-endian bytes of `v` reduced modulo `256^n`.
pub open spec fn le_bytes_of(v: int, n: nat) -> Seq<u8> {
    Seq::new(n, |i: int| ((v % pow256(n) as int) / pow256(i as nat) as int % 256) as u8)
}

/// Index of the first fixed value of `vs` at or after `i`.
pub open spec fn first_fixed_from(vs: Seq<SearchValue>, i: int) -> Option<int>
    decreases vs.len() - i,
{
    if i < 0 || i >= vs.len() {
        None
    } else if vs[i] is FixedInt {
        Some(i)
    } else {
        first_fixed_from(vs, i + 1)
    }
}

pub open spec fn sat_sub(a: int, b: int) -> int {
    if a >= b {
        a - b
    } else {
        0
    }
}

pub open spec fn align_up_spec(x: int, m: int) -> int {
    if x % m == 0 {
        x
    } else {
        x + m - x % m
    }
}

/// The window an anchor occurrence at buffer offset `c` leads to, in
/// absolute addresses, or `None` when the occurrence is skipped: it is not
/// aligned to the anchor's size or lies outside the scanned range, the
/// anchor lies in a page that was not read, the sequence start (ordered) or
/// the anchor (unordered) is outside the region, or an ordered sequence would
/// start before the buffer.
pub open spec fn anchor_window(
    q: SearchQuery,
    w: Window,
    len: nat,
    pages: Seq<bool>,
    min_size: int,
    k: int,
    c: int,
) -> Option<(int, int)> {
    let anchor_addr = w.buffer_addr + c;
    let n = q.values@[k].type_spec().size_spec() as int;
    let first_addr = align_up_spec(w.lo(), min_size);
    let buffer_end = w.buffer_addr + len;
    let ordered = q.mode == SearchMode::Ordered;
    let start_addr = if ordered {
        sat_sub(anchor_addr, crate::types::sizes_sum(q.values@.take(k)) as int)
    } else {
        sat_sub(anchor_addr, q.range as int)
    };
    let check_addr = if ordered {
        start_addr
    } else {
        anchor_addr
    };
    let min_buf = max_int(crate::types::sizes_sum(q.values@) as int, q.range as int);
    if !(anchor_addr % n == 0 && first_addr <= anchor_addr && anchor_addr < w.hi(len)) {
        None
    } else if check_addr < w.region_start || check_addr >= w.region_end {
        None
    } else if !page_ok(pages, w.buffer_addr as int, anchor_addr) {
        None
    } else if ordered {
        if start_addr < w.buffer_addr {
            None
        } else {
            Some((start_addr, min_int(min_int(start_addr + min_buf, buffer_end), w.region_end as int)))
        }
    } else {
        Some((max_int(start_addr, w.buffer_addr as int), min_int(min_int(anchor_addr + q.range, buffer_end), w.region_end as int)))
    }
}

/// Address `a` is reported through an occurrence, at or after `from` and
/// before `to`, of the anchor (value `k`, with bytes `needle`).
pub open spec fn anchor_hit(
    q: SearchQuery,
    buf: Seq<u8>,
    w: Window,
    pages: Seq<bool>,
    min_size: int,
    k: int,
    needle: Seq<u8>,
    to: int,
    a: int,
) -> bool {
    exists|c: int|
        0 <= c < to && occurs(buf, c, needle) && (#[trigger] anchor_window(q, w, buf.len(), pages, min_size, k, c)
            matches Some((s, e)) && window_hit(q, buf, w.buffer_addr as int, s, e, a))
}

/// The little-endian bytes of a fixed integer value.
fn le_bytes(v: i128, n: usize) -> (r: Vec<u8>)
    requires
        n == 1 || n == 2 || n == 4 || n == 8,
    ensures
        r@ == le_bytes_of(v as int, n as nat),
{
    proof {
        crate::bytes::lemma_pow256_values();
    }
    let m: i128 = if n == 1 {
        256
    } else if n == 2 {
        65536
    } else if n == 4 {
        4294967296
    } else {
        18446744073709551616
    };
    let t0 = crate::types::reduce(v, m);
    let ghost target = le_bytes_of(v as int, n as nat);
    let mut t = t0;
    let mut out: Vec<u8> = Vec::new();
    let mut i: usize = 0;
    while i < n
        invariant
            i <= n,
            m as int == pow256(n as nat),
            t0 as int == v as int % (m as int),
            0 <= t0 < m,
            t as int == t0 as int / pow256(i as nat) as int,
            target == le_bytes_of(v as int, n as nat),
            out@ == target.take(i as int),
        decreases n - i,
    {
        proof {
            crate::bytes::lemma_pow256_pos(i as nat);
            vstd::arithmetic::div_mod::lemma_div_pos_is_pos(t0 as int, pow256(i as nat) as int);
            assert(pow256((i + 1) as nat) == 256 * pow256(i as nat));
            vstd::arithmetic::div_mod::lemma_div_denominator(t0 as int, pow256(i as nat) as int, 256);
            assert(pow256(i as nat) as int * 256 == pow256((i + 1) as nat) as int) by (nonlinear_arith)
                requires
                    pow256((i + 1) as nat) == 256 * pow256(i as nat),
            ;
        }
        out.push((t % 256) as u8);
        t = t / 256;
        i = i + 1;
        assert(out@ =~= target.take(i as int));
    }
    assert(target.take(n as int) =~= target);
    out
}

} // verus!

verus! {

pub proof fn lemma_ordered_offsets_shape(vs: Seq<SearchValue>, buf: Seq<u8>, base: int, i: int, off: int)
    requires
        0 <= i <= vs.len(),
        0 <= off,
    ensures
        ordered_offsets(vs, buf, base, i, off) matches Some(os) ==> os.len() == vs.len() - i && (forall|j: int|
            0 <= j < os.len() ==> off <= #[trigger] os[j] < buf.len()) && (forall|j: int|
            0 <= j < os.len() ==> (base + #[trigger] os[j]) % (vs[i + j].type_spec().size_spec() as int) == 0),
    decreases vs.len() - i,
{
    if i < vs.len() {
        let size = vs[i].type_spec().size_spec() as int;
        let from = aligned_from(base, off, size);
        lemma_aligned_from(base, off, size);
        lemma_first_match_bounds(vs[i], buf, from);
        lemma_first_match_step(vs[i], buf, base, from);
        match first_match(vs[i], buf, from) {
            Some(o) => {
                lemma_ordered_offsets_shape(vs, buf, base, i + 1, o + size);
                match ordered_offsets(vs, buf, base, i + 1, o + size) {
                    Some(rest) => {
                        let os = seq![o] + rest;
                        assert forall|j: int| 0 <= j < os.len() implies off <= #[trigger] os[j] < buf.len() by {
                            if j > 0 {
                                assert(os[j] == rest[j - 1]);
                            }
                        }
                        assert forall|j: int| 0 <= j < os.len() implies (base + #[trigger] os[j]) % (vs[i + j].type_spec().size_spec() as int) == 0 by {
                            if j > 0 {
                                assert(os[j] == rest[j - 1]);
                                assert(i + j == (i + 1) + (j - 1));
                            }
                        }
                    },
                    None => {},
                }
            },
            None => {},
        }
    }
}

pub proof fn lemma_group_offsets_shape(q: SearchQuery, buf: Seq<u8>, base: int)
    ensures
        group_offsets(q, buf, base) matches Some(os) ==> os.len() == q.values@.len() && (forall|j: int|
            0 <= j < os.len() ==> 0 <= #[trigger] os[j] < buf.len()) && (forall|j: int|
            0 <= j < os.len() ==> (base + #[trigger] os[j]) % (q.values@[j].type_spec().size_spec() as int) == 0),
{
    match q.mode {
        SearchMode::Ordered => {
            lemma_ordered_offsets_shape(q.values@, buf, base, 0, 0);
            if ordered_offsets(q.values@, buf, base, 0, 0) is Some {
                let os = ordered_offsets(q.values@, buf, base, 0, 0)->Some_0;
                assert forall|j: int| 0 <= j < os.len() implies (base + #[trigger] os[j]) % (q.values@[j].type_spec().size_spec() as int) == 0 by {
                    assert(0 + j == j);
                }
            }
        },
        SearchMode::Unordered => {
            if unordered_offsets(q.values@, buf, base) is Some {
                let os = unordered_offsets(q.values@, buf, base)->Some_0;
                assert forall|j: int| 0 <= j < os.len() implies 0 <= #[trigger] os[j] < buf.len() && (base + os[j]) % (q.values@[j].type_spec().size_spec() as int) == 0 by {
                    let size = q.values@[j].type_spec().size_spec() as int;
                    assert(first_aligned(q.values@[j], buf, base) is Some);
                    lemma_aligned_from(base, 0, size);
                    lemma_first_match_bounds(q.values@[j], buf, aligned_from(base, 0, size));
                    lemma_first_match_step(q.values@[j], buf, base, aligned_from(base, 0, size));
                }
            }
        },
    }
}

/// Index of the first fixed value of the query.
fn first_fixed(query: &SearchQuery) -> (r: Option<usize>)
    ensures
        r matches Some(k) ==> first_fixed_from(query.values@, 0) == Some(k as int),
        r is None ==> first_fixed_from(query.values@, 0) is None,
{
    let mut i: usize = 0;
    while i < query.values.len()
        invariant
            i <= query.values@.len(),
            first_fixed_from(query.values@, 0) == first_fixed_from(query.values@, i as int),
        decreases query.values@.len() - i,
    {
        if let SearchValue::FixedInt { .. } = query.values[i] {
            return Some(i);
        }
        i = i + 1;
    }
    None
}

/// The window of an anchor occurrence; see `anchor_window`.
fn anchor_window_at(
    query: &SearchQuery,
    buffer_len: usize,
    w: &Window,
    page_status: &PageStatusBitmap,
    min_size: u64,
    k: usize,
    c: usize,
) -> (r: Option<(u64, u64)>)
    requires
        query.values@.len() <= 64,
        k < query.values@.len(),
        0 < min_size <= 8,
        c < buffer_len,
        w.buffer_addr + buffer_len + 140000 <= u64::MAX,
        w.region_start + 16 <= u64::MAX,
        page_status.base_spec() == w.buffer_addr,
    ensures
        anchor_window(*query, *w, buffer_len as nat, page_status.marks(), min_size as int, k as int, c as int)
            matches Some((s, e)) ==> r == Some((s as u64, e as u64)) && w.buffer_addr <= s <= e
            <= w.buffer_addr + buffer_len,
        anchor_window(*query, *w, buffer_len as nat, page_status.marks(), min_size as int, k as int, c as int)
            is None ==> r is None,
{
    let buffer_addr = w.buffer_addr;
    let anchor_addr = buffer_addr + c as u64;
    let n = query.values[k].value_type().size() as u64;
    let buffer_end = buffer_addr + buffer_len as u64;
    let lo = if buffer_addr >= w.region_start {
        buffer_addr
    } else {
        w.region_start
    };
    let hi = if buffer_end <= w.region_end {
        buffer_end
    } else {
        w.region_end
    };
    let rem = lo % min_size;
    let first_addr = if rem == 0 {
        lo
    } else {
        lo + min_size - rem
    };
    let ordered = query.mode == SearchMode::Ordered;
    let range = query.range as u64;
    let start_addr = if ordered {
        let off = query.sum_sizes(k) as u64;
        if anchor_addr >= off {
            anchor_addr - off
        } else {
            0
        }
    } else if anchor_addr >= range {
        anchor_addr - range
    } else {
        0
    };
    let check_addr = if ordered {
        start_addr
    } else {
        anchor_addr
    };
    let total = query.sum_sizes(query.values.len()) as u64;
    proof {
        assert(query.values@.take(query.values@.len() as int) =~= query.values@);
    }
    let min_buf = if total >= range {
        total
    } else {
        range
    };
    if !(anchor_addr % n == 0 && first_addr <= anchor_addr && anchor_addr < hi) {
        return None;
    }
    if check_addr < w.region_start || check_addr >= w.region_end {
        return None;
    }
    let page = anchor_addr / 4096 - buffer_addr / 4096;
    let in_page = page < page_status.num_pages() as u64 && page_status.is_page_success(
        page as usize,
    );
    if !in_page {
        return None;
    }
    if ordered {
        if start_addr < buffer_addr {
            return None;
        }
        let mut e = start_addr + min_buf;
        if e > buffer_end {
            e = buffer_end;
        }
        if e > w.region_end {
            e = w.region_end;
        }
        Some((start_addr, e))
    } else {
        let s = if start_addr >= buffer_addr {
            start_addr
        } else {
            buffer_addr
        };
        let mut e = anchor_addr + range;
        if e > buffer_end {
            e = buffer_end;
        }
        if e > w.region_end {
            e = w.region_end;
        }
        Some((s, e))
    }
}

} // verus!

verus! {

/// Matches the group in the window `[s, e)` (absolute) and records what it
/// reports.
fn match_window(
    buffer: &[u8],
    buffer_addr: u64,
    s: u64,
    e: u64,
    query: &SearchQuery,
    results: &mut ResultMap,
    types: Ghost<Set<ValueType>>,
)
    requires
        old(results).wf(),
        values_within(old(results), types@),
        query_types(*query).subset_of(types@),
        query.all_int(),
        buffer_addr <= s <= e <= buffer_addr + buffer@.len(),
        buffer_addr + buffer@.len() + 16 <= u64::MAX,
    ensures
        final(results).wf(),
        values_within(final(results), types@),
        final(results).key_seq().to_set() == old(results).key_seq().to_set().union(
            Set::new(|a: u64| window_hit(*query, buffer@, buffer_addr as int, s as int, e as int, a as int)),
        ),
{
    let ghost hits = Set::new(|a: u64| window_hit(*query, buffer@, buffer_addr as int, s as int, e as int, a as int));
    let blen = buffer.len();
    assert(e - buffer_addr <= blen);
    let ws = (s - buffer_addr) as usize;
    let we = (e - buffer_addr) as usize;
    let ghost win = buffer@.subrange(ws as int, we as int);
    proof {
        lemma_group_offsets_shape(*query, win, s as int);
    }
    match try_match_group_at_address(buffer, ws, we, s, query) {
        Some(os) => {
            let ghost oss = group_offsets(*query, win, s as int)->Some_0;
            record_window(results, query, s, &os, Ghost(oss), types);
            proof {
                assert(hits =~= hits_of(s as int, oss, oss.len() as int)) by {
                    assert forall|a: u64| hits.contains(a) <==> hits_of(s as int, oss, oss.len() as int).contains(a) by {
                        if hits.contains(a) {
                            let j = choose|j: int| 0 <= j < oss.len() && a == s + #[trigger] oss[j];
                            assert(hits_of(s as int, oss, oss.len() as int).contains(a));
                        }
                        if hits_of(s as int, oss, oss.len() as int).contains(a) {
                            let j = choose|j: int| 0 <= j < oss.len() && j < oss.len() && a == s + #[trigger] oss[j];
                            assert(window_hit(*query, buffer@, buffer_addr as int, s as int, e as int, a as int));
                        }
                    }
                }
            }
        },
        None => {
            assert(hits =~= Set::<u64>::empty());
            assert(results.key_seq().to_set().union(hits) =~= results.key_seq().to_set());
        },
    }
}

/// Anchor-first group scan of one read buffer: every occurrence of the
/// anchor's bytes that passes the checks of `anchor_window` is verified by a
/// group match around it, and the matched addresses are recorded.
pub fn search_in_buffer_group_anchored(
    buffer: &[u8],
    w: &Window,
    min_size: u64,
    query: &SearchQuery,
    k: usize,
    page_status: &PageStatusBitmap,
    results: &mut ResultMap,
)
    requires
        old(results).wf(),
        query.all_int(),
        query.values@.len() <= 64,
        k < query.values@.len(),
        query.values@[k as int] is FixedInt,
        0 < min_size <= 8,
        w.buffer_addr + buffer@.len() + 140000 <= u64::MAX,
        w.region_start + 16 <= u64::MAX,
        page_status.base_spec() == w.buffer_addr,
    ensures
        final(results).wf(),
        values_added(final(results), old(results), query_types(*query)),
        final(results).key_seq().to_set() == old(results).key_seq().to_set().union(
            Set::new(
                |a: u64|
                    anchor_hit(
                        *query,
                        buffer@,
                        *w,
                        page_status.marks(),
                        min_size as int,
                        k as int,
                        le_bytes_of(
                            query.values@[k as int]->FixedInt_value as int,
                            query.values@[k as int].type_spec().size_spec() as nat,
                        ),
                        buffer@.len() as int,
                        a as int,
                    ),
            ),
        ),
{
    let ghost tys = results.val_seq().to_set().union(query_types(*query));
    proof {
        lemma_values_own(results, query_types(*query));
        assert(query_types(*query).subset_of(tys));
    }
    let (value, n) = match &query.values[k] {
        SearchValue::FixedInt { value, value_type } => (*value, value_type.size()),
        _ => {
            return;
        },
    };
    let needle = le_bytes(value, n);
    let ghost nd = needle@;
    let ghost pages = page_status.marks();
    let ghost start_keys = results.key_seq().to_set();
    let len = buffer.len();
    let mut pos: usize = 0;
    while pos < len
        invariant
            results.wf(),
            values_within(results, tys),
            query_types(*query).subset_of(tys),
            tys == old(results).val_seq().to_set().union(query_types(*query)),
            query.all_int(),
            query.values@.len() <= 64,
            k < query.values@.len(),
            0 < min_size <= 8,
            w.buffer_addr + buffer@.len() + 140000 <= u64::MAX,
            w.region_start + 16 <= u64::MAX,
            page_status.base_spec() == w.buffer_addr,
            pages == page_status.marks(),
            len == buffer@.len(),
            nd == needle@,
            nd.len() == n,
            n > 0,
            pos <= len,
            results.key_seq().to_set() == start_keys.union(
                Set::new(
                    |a: u64|
                        anchor_hit(*query, buffer@, *w, pages, min_size as int, k as int, nd, pos as int, a as int),
                ),
            ),
        ensures
            results.wf(),
            values_within(results, tys),
            query_types(*query).subset_of(tys),
            tys == old(results).val_seq().to_set().union(query_types(*query)),
            results.key_seq().to_set() == start_keys.union(
                Set::new(
                    |a: u64|
                        anchor_hit(*query, buffer@, *w, pages, min_size as int, k as int, nd, len as int, a as int),
                ),
            ),
        decreases len - pos,
    {
        let ghost before = results.key_seq().to_set();
        match find_bytes(buffer, pos, needle.as_slice()) {
            None => {
                proof {
                    assert(Set::new(|a: u64| anchor_hit(*query, buffer@, *w, pages, min_size as int, k as int, nd, pos as int, a as int))
                        =~= Set::new(|a: u64| anchor_hit(*query, buffer@, *w, pages, min_size as int, k as int, nd, len as int, a as int))) by {
                        assert forall|a: u64| anchor_hit(*query, buffer@, *w, pages, min_size as int, k as int, nd, len as int, a as int)
                            implies anchor_hit(*query, buffer@, *w, pages, min_size as int, k as int, nd, pos as int, a as int) by {
                            let c = choose|c: int| 0 <= c < len && occurs(buffer@, c, nd) && (#[trigger] anchor_window(*query, *w, buffer@.len(), pages, min_size as int, k as int, c)
                                matches Some((s, e)) && window_hit(*query, buffer@, w.buffer_addr as int, s, e, a as int));
                            assert(c < pos);
                        }
                    }
                }
                break;
            },
            Some(rel) => {
                let c = pos + rel;
                let ghost hits_c = Set::new(|a: u64| anchor_window(*query, *w, buffer@.len(), pages, min_size as int, k as int, c as int)
                    matches Some((s, e)) && window_hit(*query, buffer@, w.buffer_addr as int, s, e, a as int));
                match anchor_window_at(query, len, w, page_status, min_size, k, c) {
                    Some((s, e)) => {
                        match_window(buffer, w.buffer_addr, s, e, query, results, Ghost(tys));
                        assert(Set::new(|a: u64| window_hit(*query, buffer@, w.buffer_addr as int, s as int, e as int, a as int)) =~= hits_c);
                    },
                    None => {
                        assert(hits_c =~= Set::<u64>::empty());
                        assert(results.key_seq().to_set().union(hits_c) =~= results.key_seq().to_set());
                    },
                }
                proof {
                    let old_set = Set::new(|a: u64| anchor_hit(*query, buffer@, *w, pages, min_size as int, k as int, nd, pos as int, a as int));
                    let new_set = Set::new(|a: u64| anchor_hit(*query, buffer@, *w, pages, min_size as int, k as int, nd, c + 1, a as int));
                    assert forall|a: u64| new_set.contains(a) <==> old_set.contains(a) || hits_c.contains(a) by {
                        if new_set.contains(a) {
                            let c2 = choose|c2: int| 0 <= c2 < c + 1 && occurs(buffer@, c2, nd) && (#[trigger] anchor_window(*query, *w, buffer@.len(), pages, min_size as int, k as int, c2)
                                matches Some((s, e)) && window_hit(*query, buffer@, w.buffer_addr as int, s, e, a as int));
                            if c2 < pos {
                                assert(old_set.contains(a));
                            } else {
                                assert(c2 == c);
                            }
                        }
                        if hits_c.contains(a) {
                            assert(occurs(buffer@, c as int, nd));
                            assert(anchor_hit(*query, buffer@, *w, pages, min_size as int, k as int, nd, c + 1, a as int));
                        }
                        if old_set.contains(a) {
                            let c2 = choose|c2: int| 0 <= c2 < pos && occurs(buffer@, c2, nd) && (#[trigger] anchor_window(*query, *w, buffer@.len(), pages, min_size as int, k as int, c2)
                                matches Some((s, e)) && window_hit(*query, buffer@, w.buffer_addr as int, s, e, a as int));
                            assert(anchor_hit(*query, buffer@, *w, pages, min_size as int, k as int, nd, c + 1, a as int));
                        }
                    }
                    assert(results.key_seq().to_set() =~= start_keys.union(new_set));
                }
                pos = c + 1;
            },
        }
    }
}

} // verus!

verus! {

/// Group scan of one read buffer by sweeping: a window of `range` bytes is
/// matched at every position aligned to `min_size` in a successfully read
/// page, greedily or, with `deep`, exhaustively.
pub fn search_in_buffer_group_fallback<C: Fn() -> bool>(
    buffer: &[u8],
    w: &Window,
    min_size: u64,
    query: &SearchQuery,
    page_status: &PageStatusBitmap,
    deep: bool,
    results: &mut ResultMap,
    cancel: &C,
) -> (completed: bool)
    requires
        call_requires(*cancel, ()),
        old(results).wf(),
        query.all_int(),
        query.values@.len() <= 64,
        0 < min_size <= 8,
        w.buffer_addr + buffer@.len() + 140000 <= u64::MAX,
        w.region_start + 16 <= u64::MAX,
        page_status.base_spec() == w.buffer_addr,
    ensures
        final(results).wf(),
        values_added(final(results), old(results), query_types(*query)),
        completed ==> final(results).key_seq().to_set() == old(results).key_seq().to_set().union(
            Set::new(
                |a: u64|
                    sweep_hit(*query, buffer@, *w, page_status.marks(), min_size as int, deep, u64::MAX as int + 1, a as int),
            ),
        ),
        !deep || (forall|b: bool| call_ensures(*cancel, (), b) ==> !b) ==> completed,
{
    let ghost tys = results.val_seq().to_set().union(query_types(*query));
    proof {
        lemma_values_own(results, query_types(*query));
        assert(query_types(*query).subset_of(tys));
    }
    let mut steps: u64 = 0;
    let mut stopped = false;
    let ghost pages = page_status.marks();
    let ghost start_keys = results.key_seq().to_set();
    let buffer_addr = w.buffer_addr;
    let buffer_end = buffer_addr + buffer.len() as u64;
    let lo = if buffer_addr >= w.region_start {
        buffer_addr
    } else {
        w.region_start
    };
    let hi = if buffer_end <= w.region_end {
        buffer_end
    } else {
        w.region_end
    };
    let range = query.range as u64;
    let blen = buffer.len();
    if lo >= hi {
        proof {
            assert forall|a: u64| !#[trigger] sweep_hit(*query, buffer@, *w, pages, min_size as int, deep, u64::MAX as int + 1, a as int) by {
                if sweep_hit(*query, buffer@, *w, pages, min_size as int, deep, u64::MAX as int + 1, a as int) {
                    let p = choose|p: int| p < u64::MAX as int + 1 && (#[trigger] sweep_window(*query, *w, buffer@.len(), pages, min_size as int, deep, p) matches Some((s, e))
                        && window_emits(*query, buffer@, w.buffer_addr as int, s, e, deep, a as int));
                }
            }
            assert(start_keys.union(Set::new(|a: u64| sweep_hit(*query, buffer@, *w, pages, min_size as int, deep, u64::MAX as int + 1, a as int))) =~= start_keys);
        }
        return true;
    }
    let mut addr = align_up(lo, min_size);
    let first_page = buffer_addr / 4096;
    proof {
        assert forall|a: u64| !#[trigger] sweep_hit(*query, buffer@, *w, pages, min_size as int, deep, addr as int, a as int) by {
            if sweep_hit(*query, buffer@, *w, pages, min_size as int, deep, addr as int, a as int) {
                let p = choose|p: int| p < addr && (#[trigger] sweep_window(*query, *w, buffer@.len(), pages, min_size as int, deep, p) matches Some((s, e))
                    && window_emits(*query, buffer@, w.buffer_addr as int, s, e, deep, a as int));
                lemma_aligned_gap(addr as int, p, min_size as int);
            }
        }
        assert(start_keys.union(Set::new(|a: u64| sweep_hit(*query, buffer@, *w, pages, min_size as int, deep, addr as int, a as int))) =~= start_keys);
    }
    while addr < hi
        invariant
            results.wf(),
            values_within(results, tys),
            query_types(*query).subset_of(tys),
            tys == old(results).val_seq().to_set().union(query_types(*query)),
            query.all_int(),
            query.values@.len() <= 64,
            blen == buffer@.len(),
            0 < min_size <= 8,
            w.buffer_addr + buffer@.len() + 140000 <= u64::MAX,
            buffer_addr == w.buffer_addr,
            buffer_end == buffer_addr + buffer@.len(),
            lo == w.lo(),
            hi == w.hi(buffer@.len()),
            hi <= buffer_end,
            range == query.range,
            first_page == buffer_addr / 4096,
            pages == page_status.marks(),
            page_status.base_spec() == w.buffer_addr,
            addr % min_size == 0,
            lo <= addr,
            addr <= hi + min_size,
            results.key_seq().to_set() == start_keys.union(
                Set::new(|a: u64| sweep_hit(*query, buffer@, *w, pages, min_size as int, deep, addr as int, a as int)),
            ),
            call_requires(*cancel, ()),
            !stopped,
            !deep ==> steps == 0,
        decreases hi + min_size - addr,
    {
        let ghost here = Set::new(|a: u64| sweep_window(*query, *w, buffer@.len(), pages, min_size as int, deep, addr as int) matches Some((s, e))
            && window_emits(*query, buffer@, w.buffer_addr as int, s, e, deep, a as int));
        let page = addr / 4096 - first_page;
        let in_page = page < page_status.num_pages() as u64 && page_status.is_page_success(
            page as usize,
        );
        assert(in_page == page_ok(pages, buffer_addr as int, addr as int));
        let e = if addr + range <= hi {
            addr + range
        } else {
            hi
        };
        let two_sided = deep && query.mode == SearchMode::Unordered;
        let s = if two_sided {
            if addr - buffer_addr >= range {
                addr - range
            } else {
                buffer_addr
            }
        } else {
            addr
        };
        if in_page && e - s >= range {
            if deep {
                assert(e - buffer_addr <= blen);
                let ws = (s - buffer_addr) as usize;
                let we = (e - buffer_addr) as usize;
                let mut chosen: Vec<u64> = Vec::new();
                let mut types: Vec<ValueType> = Vec::new();
                assert(chosen@.map_values(|x: u64| x as int) =~= Seq::<int>::empty());
                dfs_deep(buffer, ws, we, s, query, &mut chosen, &mut types, 0, results, cancel, &mut steps, &mut stopped, Ghost(tys));
                if stopped {
                    return false;
                }
                assert(Set::new(|a: u64| deep_node(*query, buffer@.subrange(ws as int, we as int), s as int, Seq::<int>::empty(), 0, a as int)) =~= here);
            } else {
                match_window(buffer, buffer_addr, addr, e, query, results, Ghost(tys));
                assert(Set::new(|a: u64| window_hit(*query, buffer@, buffer_addr as int, addr as int, e as int, a as int)) =~= here);
            }
        } else {
            assert(here =~= Set::<u64>::empty());
            assert(results.key_seq().to_set().union(here) =~= results.key_seq().to_set());
        }
        proof {
            let old_set = Set::new(|a: u64| sweep_hit(*query, buffer@, *w, pages, min_size as int, deep, addr as int, a as int));
            let new_set = Set::new(|a: u64| sweep_hit(*query, buffer@, *w, pages, min_size as int, deep, addr + min_size, a as int));
            assert forall|a: u64| new_set.contains(a) <==> old_set.contains(a) || here.contains(a) by {
                if new_set.contains(a) {
                    let p = choose|p: int| p < addr + min_size && (#[trigger] sweep_window(*query, *w, buffer@.len(), pages, min_size as int, deep, p) matches Some((s, e))
                        && window_emits(*query, buffer@, w.buffer_addr as int, s, e, deep, a as int));
                    if p >= addr {
                        lemma_aligned_gap(p, addr as int, min_size as int);
                    }
                }
                if here.contains(a) {
                    assert(sweep_hit(*query, buffer@, *w, pages, min_size as int, deep, addr + min_size, a as int));
                }
                if old_set.contains(a) {
                    let p = choose|p: int| p < addr && (#[trigger] sweep_window(*query, *w, buffer@.len(), pages, min_size as int, deep, p) matches Some((s, e))
                        && window_emits(*query, buffer@, w.buffer_addr as int, s, e, deep, a as int));
                    assert(sweep_hit(*query, buffer@, *w, pages, min_size as int, deep, addr + min_size, a as int));
                }
            }
            assert(results.key_seq().to_set() =~= start_keys.union(new_set));
            vstd::arithmetic::div_mod::lemma_mod_add_multiples_vanish(addr as int, min_size as int);
        }
        addr = addr + min_size;
    }
    proof {
        let cur = Set::new(|a: u64| sweep_hit(*query, buffer@, *w, pages, min_size as int, deep, addr as int, a as int));
        let all = Set::new(|a: u64| sweep_hit(*query, buffer@, *w, pages, min_size as int, deep, u64::MAX as int + 1, a as int));
        assert forall|a: u64| all.contains(a) implies cur.contains(a) by {
            let p = choose|p: int| p < u64::MAX as int + 1 && (#[trigger] sweep_window(*query, *w, buffer@.len(), pages, min_size as int, deep, p) matches Some((s, e))
                && window_emits(*query, buffer@, w.buffer_addr as int, s, e, deep, a as int));
            assert(p < hi);
        }
        assert forall|a: u64| cur.contains(a) implies all.contains(a) by {
            let p = choose|p: int| p < addr && (#[trigger] sweep_window(*query, *w, buffer@.len(), pages, min_size as int, deep, p) matches Some((s, e))
                && window_emits(*query, buffer@, w.buffer_addr as int, s, e, deep, a as int));
        }
        assert(cur =~= all);
    }
    true
}

/// Group scan of one read buffer: anchor-first when the query holds a fixed
/// value, else the aligned sweep.
pub fn search_in_buffer_group(
    buffer: &[u8],
    w: &Window,
    min_size: u64,
    query: &SearchQuery,
    page_status: &PageStatusBitmap,
    results: &mut ResultMap,
)
    requires
        old(results).wf(),
        query.all_int(),
        query.values@.len() <= 64,
        0 < min_size <= 8,
        w.buffer_addr + buffer@.len() + 140000 <= u64::MAX,
        w.region_start + 16 <= u64::MAX,
        page_status.base_spec() == w.buffer_addr,
    ensures
        final(results).wf(),
        values_added(final(results), old(results), query_types(*query)),
        first_fixed_from(query.values@, 0) matches Some(k) ==> final(results).key_seq().to_set()
            == old(results).key_seq().to_set().union(
            Set::new(
                |a: u64|
                    anchor_hit(
                        *query,
                        buffer@,
                        *w,
                        page_status.marks(),
                        min_size as int,
                        k,
                        le_bytes_of(
                            query.values@[k]->FixedInt_value as int,
                            query.values@[k].type_spec().size_spec() as nat,
                        ),
                        buffer@.len() as int,
                        a as int,
                    ),
            ),
        ),
        first_fixed_from(query.values@, 0) is None ==> final(results).key_seq().to_set()
            == old(results).key_seq().to_set().union(
            Set::new(
                |a: u64|
                    sweep_hit(*query, buffer@, *w, page_status.marks(), min_size as int, false, u64::MAX as int + 1, a as int),
            ),
        ),
{
    let ghost tys = results.val_seq().to_set().union(query_types(*query));
    proof {
        lemma_values_own(results, query_types(*query));
        assert(query_types(*query).subset_of(tys));
    }
    match first_fixed(query) {
        Some(k) => {
            proof {
                lemma_first_fixed_is_fixed(query.values@, 0);
            }
            search_in_buffer_group_anchored(buffer, w, min_size, query, k, page_status, results);
        },
        None => {
            let never = || -> (b: bool)
                ensures
                    !b,
            { false };
            search_in_buffer_group_fallback(buffer, w, min_size, query, page_status, false, results, &never);
        },
    }
}

pub proof fn lemma_first_fixed_is_fixed(vs: Seq<SearchValue>, i: int)
    ensures
        first_fixed_from(vs, i) matches Some(k) ==> 0 <= k < vs.len() && vs[k] is FixedInt,
    decreases vs.len() - i,
{
    if 0 <= i < vs.len() && !(vs[i] is FixedInt) {
        lemma_first_fixed_is_fixed(vs, i + 1);
    }
}

} // verus!

verus! {

/// Address `a` is emitted by the exhaustive search of window `win` (at
/// address `base`) from a partial combination `chosen`, trying offsets from
/// `off` on in steps of the next value's size.
pub open spec fn deep_node(q: SearchQuery, win: Seq<u8>, base: int, chosen: Seq<int>, off: int, a: int) -> bool
    decreases q.values@.len() - chosen.len(), win.len() + 9 - off,
{
    if chosen.len() >= q.values@.len() {
        chosen.contains(a)
    } else if off <= win.len() + 8 {
        deep_loop(q, win, base, chosen, off, a)
    } else {
        false
    }
}

/// Where the search for the next value starts once a value is placed at
/// `off`: right after it when ordered, at the window's start when not.
pub open spec fn deep_next(q: SearchQuery, off: int, size: int) -> int {
    if q.mode == SearchMode::Ordered {
        off + size
    } else {
        0
    }
}

pub open spec fn deep_loop(q: SearchQuery, win: Seq<u8>, base: int, chosen: Seq<int>, off: int, a: int) -> bool
    decreases q.values@.len() - chosen.len(), win.len() + 8 - off,
{
    if chosen.len() >= q.values@.len() {
        false
    } else {
        let v = q.values@[chosen.len() as int];
        let size = v.type_spec().size_spec() as int;
        if off < 0 || size <= 0 || off + size > win.len() {
            false
        } else {
            (v.matches_spec(win.subrange(off, off + size)) && !chosen.contains(base + off) && deep_node(
                q,
                win,
                base,
                chosen.push(base + off),
                deep_next(q, off, size),
                a,
            )) || deep_loop(q, win, base, chosen, off + size, a)
        }
    }
}

/// Address `a` is emitted through the offset `off` taken next.
pub open spec fn deep_step(q: SearchQuery, win: Seq<u8>, base: int, chosen: Seq<int>, off: int, a: int) -> bool {
    let v = q.values@[chosen.len() as int];
    let size = v.type_spec().size_spec() as int;
    0 <= off && off + size <= win.len() && v.matches_spec(win.subrange(off, off + size)) && !chosen.contains(base + off)
        && deep_node(q, win, base, chosen.push(base + off), deep_next(q, off, size), a)
}

/// The offsets visited from `from` in steps of `size`, below `to`.
pub open spec fn deep_prefix(q: SearchQuery, win: Seq<u8>, base: int, chosen: Seq<int>, from: int, to: int, size: int) -> Set<u64> {
    Set::new(|a: u64| exists|k: int| 0 <= k && from + k * size < to && #[trigger] deep_step(q, win, base, chosen, from + k * size, a as int))
}

pub proof fn lemma_deep_loop_unfold(q: SearchQuery, win: Seq<u8>, base: int, chosen: Seq<int>, off: int, a: int)
    requires
        chosen.len() < q.values@.len(),
        0 <= off,
        q.values@[chosen.len() as int].type_spec().size_spec() > 0,
    ensures
        deep_loop(q, win, base, chosen, off, a) <==> exists|k: int| 0 <= k && #[trigger] deep_step(
            q,
            win,
            base,
            chosen,
            off + k * q.values@[chosen.len() as int].type_spec().size_spec(),
            a,
        ),
    decreases win.len() - off,
{
    let size = q.values@[chosen.len() as int].type_spec().size_spec() as int;
    if off + size <= win.len() {
        lemma_deep_loop_unfold(q, win, base, chosen, off + size, a);
        if deep_loop(q, win, base, chosen, off, a) {
            if deep_step(q, win, base, chosen, off, a) {
                assert(deep_step(q, win, base, chosen, off + 0 * size, a));
            } else {
                let k = choose|k: int| 0 <= k && #[trigger] deep_step(q, win, base, chosen, (off + size) + k * size, a);
                assert((off + size) + k * size == off + (k + 1) * size) by (nonlinear_arith);
                assert(deep_step(q, win, base, chosen, off + (k + 1) * size, a));
            }
        }
        if exists|k: int| 0 <= k && #[trigger] deep_step(q, win, base, chosen, off + k * size, a) {
            let k = choose|k: int| 0 <= k && #[trigger] deep_step(q, win, base, chosen, off + k * size, a);
            if k > 0 {
                assert(off + k * size == (off + size) + (k - 1) * size) by (nonlinear_arith);
                assert(deep_step(q, win, base, chosen, (off + size) + (k - 1) * size, a));
            } else {
                assert(off + k * size == off) by (nonlinear_arith) requires k == 0;
            }
        }
    } else {
        if exists|k: int| 0 <= k && #[trigger] deep_step(q, win, base, chosen, off + k * size, a) {
            let k = choose|k: int| 0 <= k && #[trigger] deep_step(q, win, base, chosen, off + k * size, a);
            assert(off + k * size >= off) by (nonlinear_arith) requires k >= 0, size > 0;
        }
    }
}

/// Exhaustive search of `buf[ws..we]` (window address `base`): every
/// combination of distinct aligned positions, one per remaining value, each
/// holding its value, is emitted whole.
fn dfs_deep<C: Fn() -> bool>(
    buf: &[u8],
    ws: usize,
    we: usize,
    base: u64,
    query: &SearchQuery,
    chosen: &mut Vec<u64>,
    types: &mut Vec<ValueType>,
    off: usize,
    results: &mut ResultMap,
    cancel: &C,
    steps: &mut u64,
    stopped: &mut bool,
    types_allowed: Ghost<Set<ValueType>>,
)
    requires
        call_requires(*cancel, ()),
        !*old(stopped),
        query.all_int(),
        query.values@.len() <= 64,
        ws <= we <= buf@.len(),
        base + (we - ws) <= u64::MAX,
        old(chosen)@.len() <= query.values@.len(),
        old(types)@.len() == old(chosen)@.len(),
        forall|j: int| 0 <= j < old(types)@.len() ==> types_allowed@.contains(#[trigger] old(types)@[j]),
        off <= we - ws + 8,
        old(results).wf(),
        values_within(old(results), types_allowed@),
        query_types(*query).subset_of(types_allowed@),
    ensures
        final(chosen)@ == old(chosen)@,
        final(types)@ == old(types)@,
        final(results).wf(),
        values_within(final(results), types_allowed@),
        !*final(stopped) ==> final(results).key_seq().to_set() == old(results).key_seq().to_set().union(
            Set::new(|a: u64| deep_node(*query, buf@.subrange(ws as int, we as int), base as int, old(chosen)@.map_values(|x: u64| x as int), off as int, a as int)),
        ),
        (forall|b: bool| call_ensures(*cancel, (), b) ==> !b) ==> !*final(stopped),
    decreases query.values@.len() - old(chosen)@.len(), we - ws + 8 - off,
{
    let ghost win = buf@.subrange(ws as int, we as int);
    let ghost ch = chosen@.map_values(|x: u64| x as int);
    let ghost chv = chosen@;
    let ghost tys = types@;
    let ghost start_keys = results.key_seq().to_set();
    let need = query.values.len();
    if chosen.len() >= need {
        let mut k: usize = 0;
        while k < chosen.len()
            invariant
                chosen@ == chv,
                types@ == tys,
                ch == chv.map_values(|x: u64| x as int),
                tys.len() == chv.len(),
                forall|j: int| 0 <= j < tys.len() ==> types_allowed@.contains(#[trigger] tys[j]),
                k <= chv.len(),
                results.wf(),
                values_within(results, types_allowed@),
                query_types(*query).subset_of(types_allowed@),
            query_types(*query).subset_of(types_allowed@),
                results.key_seq().to_set() == start_keys.union(Set::new(|a: u64| exists|j: int| 0 <= j < k && chv[j] == a)),
            decreases chv.len() - k,
        {
            record(results, chosen[k], types[k], Ghost(types_allowed@));
            assert(results.key_seq().to_set() =~= start_keys.union(Set::new(|a: u64| exists|j: int| 0 <= j < k + 1 && chv[j] == a)));
            k = k + 1;
        }
        proof {
            assert forall|a: u64| (exists|j: int| 0 <= j < chv.len() && chv[j] == a) <==> ch.contains(a as int) by {
                if ch.contains(a as int) {
                    let j = choose|j: int| 0 <= j < ch.len() && ch[j] == a as int;
                    assert(chv[j] == a);
                }
                if exists|j: int| 0 <= j < chv.len() && chv[j] == a {
                    let j = choose|j: int| 0 <= j < chv.len() && chv[j] == a;
                    assert(ch[j] == a as int);
                }
            }
            assert(Set::new(|a: u64| exists|j: int| 0 <= j < chv.len() && chv[j] == a) =~= Set::new(|a: u64| deep_node(*query, win, base as int, ch, off as int, a as int)));
        }
        return;
    }
    let v = &query.values[chosen.len()];
    let vt = v.value_type();
    let size = vt.size();
    let len = we - ws;
    let mut o = off;
    assert(types_allowed@.contains(vt));
    proof {
        vstd::arithmetic::div_mod::lemma_small_mod(0, size as nat);
    }
    while o <= len && len - o >= size
        invariant
            query.all_int(),
            query.values@.len() <= 64,
            need == query.values@.len(),
            chv.len() < need,
            chosen@ == chv,
            types@ == tys,
            tys.len() == chv.len(),
            forall|j: int| 0 <= j < tys.len() ==> types_allowed@.contains(#[trigger] tys[j]),
            ch == chv.map_values(|x: u64| x as int),
            *v == query.values@[chv.len() as int],
            vt == v.type_spec(),
            types_allowed@.contains(vt),
            size == vt.size_spec(),
            size > 0,
            ws <= we <= buf@.len(),
            len == we - ws,
            win == buf@.subrange(ws as int, we as int),
            base + len <= u64::MAX,
            off <= o,
            (o - off) % (size as int) == 0,
            o <= len + 8,
            off <= len + 8,
            results.wf(),
            values_within(results, types_allowed@),
            query_types(*query).subset_of(types_allowed@),
            results.key_seq().to_set() == start_keys.union(deep_prefix(*query, win, base as int, ch, off as int, o as int, size as int)),
            call_requires(*cancel, ()),
            !*stopped,
            chv == old(chosen)@,
            tys == old(types)@,
        decreases len + 8 - o,
    {
        if *steps < u64::MAX {
            *steps = *steps + 1;
        }
        if *steps % 500 == 0 && cancel() {
            *stopped = true;
            return;
        }
        let addr = base + o as u64;
        let hit = v.matched_at(buf, ws + o);
        assert(buf@.subrange(ws + o, buf@.len() as int).take(size as int) =~= win.subrange(o as int, o + size).take(size as int));
        assert(win.subrange(o as int, o + size).take(size as int) =~= win.subrange(o as int, o + size));
        let used = contains_u64(chosen, addr);
        assert(used == ch.contains(base + o)) by {
            if used {
                let j = choose|j: int| 0 <= j < chv.len() && chv[j] == addr;
                assert(ch[j] == base + o);
            }
            if ch.contains(base + o) {
                let j = choose|j: int| 0 <= j < ch.len() && ch[j] == base + o;
                assert(chv[j] == addr);
            }
        }
        if hit && !used {
            chosen.push(addr);
            types.push(vt);
            assert(chosen@.map_values(|x: u64| x as int) =~= ch.push(base + o));
            let next = if query.mode == SearchMode::Ordered {
                o + size
            } else {
                0
            };
            dfs_deep(buf, ws, we, base, query, chosen, types, next, results, cancel, steps, stopped, types_allowed);
            chosen.pop();
            types.pop();
            assert(chosen@ =~= chv);
            assert(types@ =~= tys);
            if *stopped {
                return;
            }
        }
        proof {
            let here = Set::new(|a: u64| deep_step(*query, win, base as int, ch, o as int, a as int));
            if !(hit && !used) {
                assert(here =~= Set::<u64>::empty());
            } else {
                assert(Set::new(|a: u64| deep_node(*query, win, base as int, ch.push(base + o), deep_next(*query, o as int, size as int), a as int)) =~= here);
            }
            let k_o = (o - off) / (size as int);
            assert(o == off + k_o * size) by {
                vstd::arithmetic::div_mod::lemma_fundamental_div_mod((o - off) as int, size as int);
            }
            assert forall|a: u64| deep_prefix(*query, win, base as int, ch, off as int, o + size, size as int).contains(a) <==> (deep_prefix(*query, win, base as int, ch, off as int, o as int, size as int).contains(a) || here.contains(a)) by {
                if deep_prefix(*query, win, base as int, ch, off as int, o + size, size as int).contains(a) {
                    let k = choose|k: int| 0 <= k && off + k * size < o + size && #[trigger] deep_step(*query, win, base as int, ch, off + k * size, a as int);
                    if off + k * size >= o {
                        assert(k == k_o) by (nonlinear_arith)
                            requires
                                off + k * size >= o,
                                off + k * size < o + size,
                                o == off + k_o * size,
                                size > 0,
                        ;
                    }
                }
                if here.contains(a) {
                    assert(deep_step(*query, win, base as int, ch, off + k_o * size, a as int));
                    assert(k_o >= 0) by (nonlinear_arith) requires o >= off, o == off + k_o * size, size > 0;
                }
                if deep_prefix(*query, win, base as int, ch, off as int, o as int, size as int).contains(a) {
                    let k = choose|k: int| 0 <= k && off + k * size < o && #[trigger] deep_step(*query, win, base as int, ch, off + k * size, a as int);
                }
            }
            assert(results.key_seq().to_set() =~= start_keys.union(deep_prefix(*query, win, base as int, ch, off as int, o + size, size as int)));
            vstd::arithmetic::div_mod::lemma_mod_add_multiples_vanish((o - off) as int, size as int);
        }
        o = o + size;
    }
    proof {
        lemma_deep_loop_unfold(*query, win, base as int, ch, off as int, 0);
        assert forall|a: u64| deep_prefix(*query, win, base as int, ch, off as int, o as int, size as int).contains(a) <==> deep_node(*query, win, base as int, ch, off as int, a as int) by {
            lemma_deep_loop_unfold(*query, win, base as int, ch, off as int, a as int);
            if deep_node(*query, win, base as int, ch, off as int, a as int) {
                let k = choose|k: int| 0 <= k && #[trigger] deep_step(*query, win, base as int, ch, off + k * size, a as int);
            }
        }
        assert(deep_prefix(*query, win, base as int, ch, off as int, o as int, size as int) =~= Set::new(|a: u64| deep_node(*query, win, base as int, ch, off as int, a as int)));
    }
}

fn contains_u64(v: &Vec<u64>, a: u64) -> (r: bool)
    ensures
        r == v@.contains(a),
{
    let mut i: usize = 0;
    while i < v.len()
        invariant
            i <= v@.len(),
            forall|j: int| 0 <= j < i ==> v@[j] != a,
        decreases v@.len() - i,
    {
        if v[i] == a {
            return true;
        }
        i = i + 1;
    }
    false
}

} // verus!

verus! {

/// Exhaustive group scan of one read buffer: at every aligned position of a
/// successfully read page, every combination of distinct positions holding
/// the query's values within the window is emitted.  The search polls
/// `cancel` every 500 steps and gives up, returning false, when it says so.
pub fn search_in_buffer_group_deep_with_cancel<C: Fn() -> bool>(
    buffer: &[u8],
    w: &Window,
    min_size: u64,
    query: &SearchQuery,
    page_status: &PageStatusBitmap,
    results: &mut ResultMap,
    cancel: &C,
) -> (completed: bool)
    requires
        call_requires(*cancel, ()),
        old(results).wf(),
        query.all_int(),
        query.values@.len() <= 64,
        0 < min_size <= 8,
        w.buffer_addr + buffer@.len() + 140000 <= u64::MAX,
        w.region_start + 16 <= u64::MAX,
        page_status.base_spec() == w.buffer_addr,
    ensures
        final(results).wf(),
        values_added(final(results), old(results), query_types(*query)),
        completed ==> final(results).key_seq().to_set() == old(results).key_seq().to_set().union(
            Set::new(
                |a: u64|
                    sweep_hit(*query, buffer@, *w, page_status.marks(), min_size as int, true, u64::MAX as int + 1, a as int),
            ),
        ),
        (forall|b: bool| call_ensures(*cancel, (), b) ==> !b) ==> completed,
{
    let ghost tys = results.val_seq().to_set().union(query_types(*query));
    proof {
        lemma_values_own(results, query_types(*query));
        assert(query_types(*query).subset_of(tys));
    }
    search_in_buffer_group_fallback(buffer, w, min_size, query, page_status, true, results, cancel)
}

/// Every single-value hit is aligned to its type's size and lies in a page
/// the read marked successful.
pub proof fn lemma_single_hit_aligned_and_read(buf: Seq<u8>, w: Window, target: SearchValue, pages: Seq<bool>, a: int)
    requires
        single_hit(buf, w, target, pages, a),
    ensures
        a % (target.type_spec().size_spec() as int) == 0,
        page_ok(pages, w.buffer_addr as int, a),
        w.lo() <= a,
        a + target.type_spec().size_spec() <= w.hi(buf.len()),
{
}

/// A group match is only tried around an anchor aligned to its size, and
/// only when its check address (the sequence start when ordered, the anchor
/// when unordered) lies in a successfully read page of the region.
pub proof fn lemma_anchor_window_checked(q: SearchQuery, w: Window, len: nat, pages: Seq<bool>, min_size: int, k: int, c: int)
    requires
        anchor_window(q, w, len, pages, min_size, k, c) is Some,
    ensures
        (w.buffer_addr + c) % (q.values@[k].type_spec().size_spec() as int) == 0,
        page_ok(pages, w.buffer_addr as int, w.buffer_addr + c),
        q.mode == SearchMode::Unordered ==> w.region_start <= w.buffer_addr + c < w.region_end,
{
}

/// A greedy group match reports one position per query value.
pub proof fn lemma_greedy_one_per_value(q: SearchQuery, buf: Seq<u8>, base: int)
    ensures
        group_offsets(q, buf, base) matches Some(os) ==> os.len() == q.values@.len(),
{
    lemma_group_offsets_shape(q, buf, base);
}

} // verus!

verus! {

/// `offs` places the values `k..` of the query in `win`, in order from
/// offset `off`: each at a multiple of the common size `sz` past the end of
/// the previous one, holding its value.
pub open spec fn placement_from(q: SearchQuery, win: Seq<u8>, k: int, sz: int, off: int, offs: Seq<int>) -> bool
    decreases offs.len(),
{
    if offs.len() == 0 {
        k == q.values@.len()
    } else {
        let o = offs[0];
        &&& 0 <= k < q.values@.len()
        &&& off <= o
        &&& (o - off) % sz == 0
        &&& o + sz <= win.len()
        &&& q.values@[k].matches_spec(win.subrange(o, o + sz))
        &&& placement_from(q, win, k + 1, sz, o + sz, offs.drop_first())
    }
}

/// The exhaustive search of an ordered query emits every address of every
/// placement of the query's values (all of size `sz`), together with the
/// addresses already chosen before them.
pub proof fn lemma_deep_complete(
    q: SearchQuery,
    win: Seq<u8>,
    base: int,
    chosen: Seq<int>,
    off: int,
    sz: int,
    offs: Seq<int>,
    a: int,
)
    requires
        q.mode == SearchMode::Ordered,
        sz > 0,
        0 <= off,
        forall|i: int| 0 <= i < q.values@.len() ==> (#[trigger] q.values@[i]).type_spec().size_spec() == sz,
        forall|i: int| 0 <= i < chosen.len() ==> #[trigger] chosen[i] < base + off,
        placement_from(q, win, chosen.len() as int, sz, off, offs),
        chosen.contains(a) || exists|j: int| 0 <= j < offs.len() && a == base + #[trigger] offs[j],
    ensures
        deep_node(q, win, base, chosen, off, a),
    decreases offs.len(),
{
    if offs.len() > 0 {
        let o = offs[0];
        let k = chosen.len() as int;
        let chosen2 = chosen.push(base + o);
        assert forall|i: int| 0 <= i < chosen2.len() implies #[trigger] chosen2[i] < base + (o + sz) by {
            if i < chosen.len() {
                assert(chosen2[i] == chosen[i]);
            }
        }
        let rest = offs.drop_first();
        if chosen.contains(a) {
            let i = choose|i: int| 0 <= i < chosen.len() && chosen[i] == a;
            assert(chosen2[i] == a);
        } else {
            let j = choose|j: int| 0 <= j < offs.len() && a == base + #[trigger] offs[j];
            if j == 0 {
                assert(chosen2[chosen.len() as int] == a);
            } else {
                assert(rest[j - 1] == offs[j]);
            }
        }
        lemma_deep_complete(q, win, base, chosen2, o + sz, sz, rest, a);
        assert(!chosen.contains(base + o)) by {
            if chosen.contains(base + o) {
                let i = choose|i: int| 0 <= i < chosen.len() && chosen[i] == base + o;
            }
        }
        assert(q.values@[k].type_spec().size_spec() == sz);
        assert(deep_step(q, win, base, chosen, o, a));
        let m = (o - off) / sz;
        assert(o == off + m * sz && m >= 0) by {
            vstd::arithmetic::div_mod::lemma_fundamental_div_mod(o - off, sz);
            assert(m * sz == sz * m) by (nonlinear_arith);
            assert(m >= 0) by (nonlinear_arith) requires o - off >= 0, sz > 0, m == (o - off) / sz;
        }
        assert(deep_step(q, win, base, chosen, off + m * q.values@[chosen.len() as int].type_spec().size_spec(), a));
        lemma_deep_loop_unfold(q, win, base, chosen, off, a);
    } else {
        assert(chosen.contains(a));
    }
}

} // verus!

verus! {

/// A greedy window match reports addresses inside its window.
pub proof fn lemma_window_hit_inside(q: SearchQuery, buf: Seq<u8>, base: int, start: int, end: int, a: int)
    requires
        window_hit(q, buf, base, start, end, a),
    ensures
        start <= a < end,
{
    lemma_group_offsets_shape(q, buf.subrange(start - base, end - base), start);
}

/// The exhaustive search reports addresses inside its window, besides those
/// already chosen.
pub proof fn lemma_deep_inside(q: SearchQuery, win: Seq<u8>, base: int, chosen: Seq<int>, off: int, a: int, lo: int)
    requires
        0 <= off,
        lo <= base,
        forall|i: int| 0 <= i < chosen.len() ==> lo <= #[trigger] chosen[i] < base + win.len(),
        deep_node(q, win, base, chosen, off, a) || deep_loop(q, win, base, chosen, off, a),
    ensures
        lo <= a < base + win.len(),
    decreases q.values@.len() - chosen.len(), win.len() + 9 - off,
{
    if chosen.len() >= q.values@.len() {
        if deep_node(q, win, base, chosen, off, a) {
            let i = choose|i: int| 0 <= i < chosen.len() && chosen[i] == a;
        }
    } else {
        let v = q.values@[chosen.len() as int];
        let size = v.type_spec().size_spec() as int;
        if !(off < 0 || size <= 0 || off + size > win.len()) {
            let c2 = chosen.push(base + off);
            if v.matches_spec(win.subrange(off, off + size)) && !chosen.contains(base + off) && deep_node(q, win, base, c2, deep_next(q, off, size), a) {
                assert forall|i: int| 0 <= i < c2.len() implies lo <= #[trigger] c2[i] < base + win.len() by {
                    if i < chosen.len() {
                        assert(c2[i] == chosen[i]);
                    }
                }
                lemma_deep_inside(q, win, base, c2, deep_next(q, off, size), a, lo);
            } else {
                lemma_deep_inside(q, win, base, chosen, off + size, a, lo);
            }
        }
    }
}

/// What a window emits lies inside it.
pub proof fn lemma_window_emits_inside(q: SearchQuery, buf: Seq<u8>, base: int, start: int, end: int, deep: bool, a: int)
    requires
        window_emits(q, buf, base, start, end, deep, a),
    ensures
        start <= a < end,
{
    if deep {
        lemma_deep_inside(q, buf.subrange(start - base, end - base), start, Seq::empty(), 0, a, start);
    } else {
        lemma_window_hit_inside(q, buf, base, start, end, a);
    }
}

/// Every address a group scan of a buffer reports lies in the buffer and
/// below the region's end.
pub proof fn lemma_group_hits_inside(q: SearchQuery, buf: Seq<u8>, w: Window, pages: Seq<bool>, min_size: int, a: int)
    requires
        (first_fixed_from(q.values@, 0) matches Some(k) && anchor_hit(q, buf, w, pages, min_size, k, le_bytes_of(q.values@[k]->FixedInt_value as int, q.values@[k].type_spec().size_spec() as nat), buf.len() as int, a))
            || sweep_hit(q, buf, w, pages, min_size, false, u64::MAX as int + 1, a)
            || sweep_hit(q, buf, w, pages, min_size, true, u64::MAX as int + 1, a),
    ensures
        w.buffer_addr <= a < w.region_end,
        a < w.buffer_addr + buf.len(),
{
    if sweep_hit(q, buf, w, pages, min_size, false, u64::MAX as int + 1, a) {
        let p = choose|p: int| p < u64::MAX as int + 1 && (#[trigger] sweep_window(q, w, buf.len(), pages, min_size, false, p) matches Some((s, e))
            && window_emits(q, buf, w.buffer_addr as int, s, e, false, a));
        let (s, e) = sweep_window(q, w, buf.len(), pages, min_size, false, p)->Some_0;
        lemma_window_emits_inside(q, buf, w.buffer_addr as int, s, e, false, a);
    } else if sweep_hit(q, buf, w, pages, min_size, true, u64::MAX as int + 1, a) {
        let p = choose|p: int| p < u64::MAX as int + 1 && (#[trigger] sweep_window(q, w, buf.len(), pages, min_size, true, p) matches Some((s, e))
            && window_emits(q, buf, w.buffer_addr as int, s, e, true, a));
        let (s, e) = sweep_window(q, w, buf.len(), pages, min_size, true, p)->Some_0;
        lemma_window_emits_inside(q, buf, w.buffer_addr as int, s, e, true, a);
    } else {
        let k = first_fixed_from(q.values@, 0)->Some_0;
        let nd = le_bytes_of(q.values@[k]->FixedInt_value as int, q.values@[k].type_spec().size_spec() as nat);
        let c = choose|c: int| 0 <= c < buf.len() as int && occurs(buf, c, nd) && (#[trigger] anchor_window(q, w, buf.len(), pages, min_size, k, c)
            matches Some((s, e)) && window_hit(q, buf, w.buffer_addr as int, s, e, a));
        let (s, e) = anchor_window(q, w, buf.len(), pages, min_size, k, c)->Some_0;
        lemma_window_hit_inside(q, buf, w.buffer_addr as int, s, e, a);
    }
}

} // verus!

verus! {

/// A greedy window match reports each address as the place of one of the
/// query's values, aligned to that value's size.
pub proof fn lemma_window_hit_aligned(q: SearchQuery, buf: Seq<u8>, base: int, start: int, end: int, a: int)
    requires
        window_hit(q, buf, base, start, end, a),
    ensures
        exists|j: int|
            0 <= j < q.values@.len() && a % (#[trigger] q.values@[j].type_spec().size_spec() as int) == 0,
{
    let win = buf.subrange(start - base, end - base);
    lemma_group_offsets_shape(q, win, start);
    let os = group_offsets(q, win, start)->Some_0;
    let j = choose|j: int| 0 <= j < os.len() && a == start + #[trigger] os[j];
    assert(a % (q.values@[j].type_spec().size_spec() as int) == 0);
}

/// Every address a greedy group scan of one buffer reports is aligned to
/// the size of a query value it was matched as, and lies in a window whose
/// anchor (when the query has a fixed value) is in a page that was read.
pub proof fn lemma_group_hits_aligned(q: SearchQuery, buf: Seq<u8>, w: Window, pages: Seq<bool>, min_size: int, a: int)
    requires
        (first_fixed_from(q.values@, 0) matches Some(k) && anchor_hit(q, buf, w, pages, min_size, k, le_bytes_of(q.values@[k]->FixedInt_value as int, q.values@[k].type_spec().size_spec() as nat), buf.len() as int, a))
            || (first_fixed_from(q.values@, 0) is None && sweep_hit(q, buf, w, pages, min_size, false, u64::MAX as int + 1, a)),
    ensures
        exists|j: int|
            0 <= j < q.values@.len() && a % (#[trigger] q.values@[j].type_spec().size_spec() as int) == 0,
{
    if first_fixed_from(q.values@, 0) is None {
        let p = choose|p: int| p < u64::MAX as int + 1 && (#[trigger] sweep_window(q, w, buf.len(), pages, min_size, false, p) matches Some((s, e))
            && window_emits(q, buf, w.buffer_addr as int, s, e, false, a));
        let (s, e) = sweep_window(q, w, buf.len(), pages, min_size, false, p)->Some_0;
        lemma_window_hit_aligned(q, buf, w.buffer_addr as int, s, e, a);
    } else {
        let k = first_fixed_from(q.values@, 0)->Some_0;
        let nd = le_bytes_of(q.values@[k]->FixedInt_value as int, q.values@[k].type_spec().size_spec() as nat);
        let c = choose|c: int| 0 <= c < buf.len() as int && occurs(buf, c, nd) && (#[trigger] anchor_window(q, w, buf.len(), pages, min_size, k, c)
            matches Some((s, e)) && window_hit(q, buf, w.buffer_addr as int, s, e, a));
        let (s, e) = anchor_window(q, w, buf.len(), pages, min_size, k, c)->Some_0;
        lemma_window_hit_aligned(q, buf, w.buffer_addr as int, s, e, a);
    }
}

} // verus!
