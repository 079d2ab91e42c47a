use vstd::prelude::*;
use crate::bitmap::PageStatusBitmap;

verus! {

/// Reads the target's memory.  A read may succeed while some pages fail:
/// the reader then marks the pages it fetched in the status bitmap.
pub trait MemoryReader {
    fn read_memory(&self, addr: u64, buf: &mut Vec<u8>, status: &mut PageStatusBitmap) -> (r: Result<(), String>)
        ensures
            final(buf)@.len() == old(buf)@.len(),
            final(status).marks().len() == old(status).marks().len(),
            final(status).base_spec() == old(status).base_spec(),
    ;
}

/// One allocated range of the emulated memory.
struct MockRegion {
    start: u64,
    data: Vec<u8>,
    faulty_pages: Vec<usize>,
}

/// An emulated address space for exercising the scanners: page-aligned
/// regions, byte writes and reads, and pages that fail to read.
pub struct MockMemory {
    regions: Vec<MockRegion>,
}

pub const MOCK_PAGE: u64 = 4096;

/// The address space ends here; regions stay below it.
pub const MOCK_LIMIT: u64 = 0x1000_0000_0000_0000;

impl MockMemory {
    pub closed spec fn wf(&self) -> bool {
        forall|i: int|
            0 <= i < self.regions@.len() ==> (#[trigger] self.regions@[i]).start + self.regions@[i].data@.len()
                <= MOCK_LIMIT
    }

    /// Start address of each region.
    pub closed spec fn starts(&self) -> Seq<u64> {
        self.regions@.map_values(|r: MockRegion| r.start)
    }

    /// Contents of each region.
    pub closed spec fn datas(&self) -> Seq<Seq<u8>> {
        self.regions@.map_values(|r: MockRegion| r.data@)
    }

    /// Region `i` holds all of `[addr, addr + size)`.
    pub open spec fn covers(&self, i: int, addr: int, size: int) -> bool {
        0 <= i < self.starts().len() && self.starts()[i] <= addr && addr + size <= self.starts()[i]
            + self.datas()[i].len()
    }

    /// The first region, from `i` on, that holds `[addr, addr + size)`.
    pub open spec fn first_cover_from(&self, addr: int, size: int, i: int) -> Option<int>
        decreases self.starts().len() - i,
    {
        if i < 0 || i >= self.starts().len() {
            None
        } else if self.covers(i, addr, size) {
            Some(i)
        } else {
            self.first_cover_from(addr, size, i + 1)
        }
    }

    /// The bytes a read of `size` bytes at `addr` returns.
    pub open spec fn read_spec(&self, addr: int, size: int) -> Option<Seq<u8>> {
        match self.first_cover_from(addr, size, 0) {
            Some(k) => Some(self.datas()[k].subrange(addr - self.starts()[k], addr - self.starts()[k] + size)),
            None => None,
        }
    }

    pub fn new() -> (r: Self)
        ensures
            r.wf(),
            r.starts().len() == 0,
    {
        MockMemory { regions: Vec::new() }
    }

    /// Index of the first region holding `[addr, addr + size)`.
    fn find_region(&self, addr: u64, size: usize) -> (r: Option<usize>)
        requires
            self.wf(),
        ensures
            r matches Some(i) ==> self.first_cover_from(addr as int, size as int, 0) == Some(i as int)
                && i < self.regions@.len() && self.regions@[i as int].start <= addr && addr + size
                <= self.regions@[i as int].start + self.regions@[i as int].data@.len(),
            r is None ==> self.first_cover_from(addr as int, size as int, 0) is None,
    {
        let mut i: usize = 0;
        while i < self.regions.len()
            invariant
                self.wf(),
                i <= self.regions@.len(),
                self.first_cover_from(addr as int, size as int, 0) == self.first_cover_from(
                    addr as int,
                    size as int,
                    i as int,
                ),
            decreases self.regions@.len() - i,
        {
            let r = &self.regions[i];
            let end = r.start + r.data.len() as u64;
            if r.start <= addr && addr <= end && (size as u64) <= end - addr {
                return Some(i);
            }
            i = i + 1;
        }
        None
    }

    /// Allocates `size` bytes (rounded up to whole pages) at `addr` (rounded
    /// down to its page); fails when that overlaps a region or runs past the
    /// end of the address space.
    pub fn malloc(&mut self, addr: u64, size: usize) -> (r: Result<u64, String>)
        requires
            old(self).wf(),
        ensures
            final(self).wf(),
            r is Err ==> final(self).starts() == old(self).starts() && final(self).datas() == old(self).datas(),
            r matches Ok(a) ==> a == addr - addr % 4096 && final(self).starts() == old(self).starts().push(a)
                && final(self).datas().drop_last() == old(self).datas() && final(self).datas().last().len()
                >= size && forall|j: int| 0 <= j < final(self).datas().last().len() ==> #[trigger] final(self).datas().last()[j] == 0,
    {
        let aligned_addr = addr - addr % MOCK_PAGE;
        if size as u64 > MOCK_LIMIT || aligned_addr >= MOCK_LIMIT {
            return Err("Allocation out of range".to_string());
        }
        let pages = (size as u64 + (MOCK_PAGE - 1)) / MOCK_PAGE;
        let aligned_size = pages * MOCK_PAGE;
        if aligned_size > MOCK_LIMIT - aligned_addr {
            return Err("Allocation out of range".to_string());
        }
        let new_end = aligned_addr + aligned_size;
        let mut i: usize = 0;
        while i < self.regions.len()
            invariant
                self.wf(),
                i <= self.regions@.len(),
            decreases self.regions@.len() - i,
        {
            let r = &self.regions[i];
            let end = r.start + r.data.len() as u64;
            if aligned_addr < end && new_end > r.start {
                return Err("Memory region overlaps with an existing region".to_string());
            }
            i = i + 1;
        }
        let mut data: Vec<u8> = Vec::new();
        let mut k: u64 = 0;
        assert(aligned_size >= size) by (nonlinear_arith)
            requires
                pages == (size as u64 + 4095) / 4096,
                aligned_size == pages * 4096,
        ;
        while k < aligned_size
            invariant
                k <= aligned_size,
                data@.len() == k,
                forall|j: int| 0 <= j < k ==> #[trigger] data@[j] == 0,
            decreases aligned_size - k,
        {
            data.push(0);
            k = k + 1;
        }
        let region = MockRegion { start: aligned_addr, data, faulty_pages: Vec::new() };
        self.regions.push(region);
        proof {
            assert(self.starts() =~= old(self).starts().push(aligned_addr));
            assert(self.datas().drop_last() =~= old(self).datas());
            assert forall|j: int| 0 <= j < self.regions@.len() implies (#[trigger] self.regions@[j]).start
                + self.regions@[j].data@.len() <= MOCK_LIMIT by {
                if j < self.regions@.len() - 1 {
                    assert(self.regions@[j] == old(self).regions@[j]);
                }
            }
        }
        Ok(aligned_addr)
    }

    /// Writes `data` at `addr`; fails unless one region holds all of it.
    pub fn mem_write(&mut self, addr: u64, data: &[u8]) -> (r: Result<(), String>)
        requires
            old(self).wf(),
        ensures
            final(self).wf(),
            final(self).starts() == old(self).starts(),
            r is Ok <==> old(self).first_cover_from(addr as int, data@.len() as int, 0) is Some,
            r is Err ==> final(self).datas() == old(self).datas(),
            r is Ok ==> ({
                let k = old(self).first_cover_from(addr as int, data@.len() as int, 0)->Some_0;
                final(self).datas() == old(self).datas().update(
                    k,
                    splice(old(self).datas()[k], addr - old(self).starts()[k], data@),
                )
            }),
    {
        let idx = match self.find_region(addr, data.len()) {
            Some(i) => i,
            None => {
                return Err("No memory region holds the write".to_string());
            },
        };
        let ghost orig = self.regions@[idx as int].data@;
        let mut region = self.regions.remove(idx);
        let dlen = region.data.len();
        assert(addr - region.start + data@.len() <= dlen);
        let offset = (addr - region.start) as usize;
        let mut j: usize = 0;
        assert(region.data@ =~= orig.take(offset as int) + data@.take(0) + orig.skip(offset as int));
        while j < data.len()
            invariant
                j <= data@.len(),
                dlen == region.data@.len(),
                orig.len() == dlen,
                region.data@ == orig.take(offset as int) + data@.take(j as int) + orig.skip(offset + j),
                idx < old(self).regions@.len(),
                offset + data@.len() <= region.data@.len(),
                region.data@.len() == old(self).regions@[idx as int].data@.len(),
                region.start == old(self).regions@[idx as int].start,
            decreases data@.len() - j,
        {
            region.data[offset + j] = data[j];
            j = j + 1;
            assert(region.data@ =~= orig.take(offset as int) + data@.take(j as int) + orig.skip(offset + j));
        }
        assert(data@.take(data@.len() as int) =~= data@);
        self.regions.insert(idx, region);
        proof {
            assert(self.starts() =~= old(self).starts());
            assert(self.datas() =~= old(self).datas().update(idx as int, splice(orig, addr - old(self).starts()[idx as int], data@)));
            assert forall|k: int| 0 <= k < self.regions@.len() implies (#[trigger] self.regions@[k]).start
                + self.regions@[k].data@.len() <= MOCK_LIMIT by {
                if k != idx {
                    assert(self.regions@[k] == old(self).regions@[k]);
                }
            }
        }
        Ok(())
    }

    pub fn mem_write_u32(&mut self, addr: u64, value: u32) -> (r: Result<(), String>)
        requires
            old(self).wf(),
        ensures
            final(self).wf(),
            final(self).starts() == old(self).starts(),
            r is Ok <==> old(self).first_cover_from(addr as int, 4, 0) is Some,
    {
        let bytes = le_bytes_u64(value as u64, 4);
        self.mem_write(addr, bytes.as_slice())
    }

    pub fn mem_write_u64(&mut self, addr: u64, value: u64) -> (r: Result<(), String>)
        requires
            old(self).wf(),
        ensures
            final(self).wf(),
            final(self).starts() == old(self).starts(),
            r is Ok <==> old(self).first_cover_from(addr as int, 8, 0) is Some,
    {
        let bytes = le_bytes_u64(value, 8);
        self.mem_write(addr, bytes.as_slice())
    }

    pub fn mem_write_i32(&mut self, addr: u64, value: i32) -> (r: Result<(), String>)
        requires
            old(self).wf(),
        ensures
            final(self).wf(),
            final(self).starts() == old(self).starts(),
            r is Ok <==> old(self).first_cover_from(addr as int, 4, 0) is Some,
    {
        let v: u64 = if value >= 0 {
            value as u64
        } else {
            (4294967296i64 + value as i64) as u64
        };
        let bytes = le_bytes_u64(v, 4);
        self.mem_write(addr, bytes.as_slice())
    }

    /// The `size` bytes at `addr`; fails unless one region holds them all.
    pub fn mem_read(&self, addr: u64, size: usize) -> (r: Result<Vec<u8>, String>)
        requires
            self.wf(),
        ensures
            r is Ok <==> self.read_spec(addr as int, size as int) is Some,
            r matches Ok(v) ==> v@ == self.read_spec(addr as int, size as int)->Some_0,
    {
        let idx = match self.find_region(addr, size) {
            Some(i) => i,
            None => {
                return Err("No memory region holds the read".to_string());
            },
        };
        let region = &self.regions[idx];
        let dlen = region.data.len();
        assert(addr - region.start + size <= dlen);
        let offset = (addr - region.start) as usize;
        let mut out: Vec<u8> = Vec::new();
        let mut j: usize = 0;
        while j < size
            invariant
                j <= size,
                dlen == region.data@.len(),
                out@ == region.data@.subrange(offset as int, offset + j),
                offset + size <= region.data@.len(),
                out@.len() == j,
            decreases size - j,
        {
            out.push(region.data[offset + j]);
            j = j + 1;
            assert(out@ =~= region.data@.subrange(offset as int, offset + j));
        }
        Ok(out)
    }

    /// Marks pages (counted from the region's first page) of the region
    /// holding `addr` as failing to read.
    pub fn set_faulty_pages(&mut self, addr: u64, page_indices: &[usize]) -> (r: Result<(), String>)
        requires
            old(self).wf(),
        ensures
            final(self).wf(),
    {
        let idx = match self.find_region(addr, 1) {
            Some(i) => i,
            None => {
                return Err("No memory region holds the address".to_string());
            },
        };
        let mut region = self.regions.remove(idx);
        let mut pages: Vec<usize> = Vec::new();
        let mut j: usize = 0;
        while j < page_indices.len()
            invariant
                j <= page_indices@.len(),
            decreases page_indices@.len() - j,
        {
            pages.push(page_indices[j]);
            j = j + 1;
        }
        region.faulty_pages = pages;
        self.regions.insert(idx, region);
        proof {
            assert forall|k: int| 0 <= k < self.regions@.len() implies (#[trigger] self.regions@[k]).start
                + self.regions@[k].data@.len() <= MOCK_LIMIT by {
                if k != idx {
                    assert(self.regions@[k] == old(self).regions@[k]);
                }
            }
        }
        Ok(())
    }

    pub fn page_size(&self) -> (r: usize)
        ensures
            r == 4096,
    {
        4096
    }

    /// Drops every region.
    pub fn reset(&mut self)
        ensures
            final(self).wf(),
    {
        self.regions = Vec::new();
    }

    /// Total bytes allocated, saturating.
    pub fn total_allocated(&self) -> (r: u64) {
        let mut total: u64 = 0;
        let mut i: usize = 0;
        while i < self.regions.len()
            invariant
                i <= self.regions@.len(),
            decreases self.regions@.len() - i,
        {
            let n = self.regions[i].data.len() as u64;
            total = if total <= u64::MAX - n {
                total + n
            } else {
                u64::MAX
            };
            i = i + 1;
        }
        total
    }

    /// Hexadecimal and printable dump of `size` bytes at `addr`, sixteen
    /// bytes a line.
    pub fn dump(&self, addr: u64, size: usize) -> (r: Result<Vec<u8>, String>)
        requires
            self.wf(),
    {
        let data = self.mem_read(addr, size)?;
        let mut out: Vec<u8> = Vec::new();
        let mut i: usize = 0;
        while i < data.len()
            invariant
                i <= data@.len(),
            decreases data@.len() - i,
        {
            let line_addr: u64 = if addr <= u64::MAX - i as u64 {
                addr + i as u64
            } else {
                0
            };
            out.push(48);
            out.push(120);
            push_hex(&mut out, line_addr, 8);
            out.push(58);
            out.push(32);
            out.push(32);
            let mut j: usize = 0;
            while j < 16
                invariant
                    i < data@.len(),
                    j <= 16,
                decreases 16 - j,
            {
                if j < data.len() - i {
                    push_hex(&mut out, data[i + j] as u64, 2);
                    out.push(32);
                } else {
                    out.push(32);
                    out.push(32);
                    out.push(32);
                }
                if j == 7 {
                    out.push(32);
                }
                j = j + 1;
            }
            out.push(32);
            out.push(32);
            out.push(124);
            let mut k: usize = 0;
            while k < 16 && k < data.len() - i
                invariant
                    i < data@.len(),
                    k <= 16,
                decreases 16 - k,
            {
                let b = data[i + k];
                if b >= 32 && b <= 126 {
                    out.push(b);
                } else {
                    out.push(46);
                }
                k = k + 1;
            }
            out.push(124);
            out.push(10);
            i = if data.len() - i >= 16 {
                i + 16
            } else {
                data.len()
            };
        }
        Ok(out)
    }
}

impl MemoryReader for MockMemory {
    /// Copies `buf.len()` bytes at `addr` from the region holding them;
    /// bytes of faulty pages read as zero and their pages stay unmarked.
    fn read_memory(&self, addr: u64, buf: &mut Vec<u8>, status: &mut PageStatusBitmap) -> (r: Result<(), String>)
    {
        if !self.wf_exec() {
            return Err("Inconsistent memory".to_string());
        }
        let idx = match self.find_region(addr, buf.len()) {
            Some(i) => i,
            None => {
                return Err("No memory region holds the read".to_string());
            },
        };
        let region = &self.regions[idx];
        let dlen = region.data.len();
        assert(addr - region.start + buf@.len() <= dlen);
        let offset = (addr - region.start) as usize;
        let first_page = addr / MOCK_PAGE;
        let n = buf.len();
        let mut i: usize = 0;
        while i < n
            invariant
                dlen == region.data@.len(),
                n == buf@.len(),
                buf@.len() == old(buf)@.len(),
                status.marks().len() == old(status).marks().len(),
                status.base_spec() == old(status).base_spec(),
                offset + n <= region.data@.len(),
                addr + n <= MOCK_LIMIT,
                region.start <= addr,
                first_page == addr / MOCK_PAGE,
                i <= n,
            decreases n - i,
        {
            let cur = addr + i as u64;
            let page_va = cur / MOCK_PAGE;
            let region_page = (page_va - region.start / MOCK_PAGE) as usize;
            if contains_usize(&region.faulty_pages, region_page) {
                buf[i] = 0;
            } else {
                buf[i] = region.data[offset + i];
                status.mark_success((page_va - first_page) as usize);
            }
            i = i + 1;
        }
        Ok(())
    }
}

/// `s` with `d` written over it from offset `off`.
pub open spec fn splice(s: Seq<u8>, off: int, d: Seq<u8>) -> Seq<u8> {
    s.take(off) + d + s.skip(off + d.len())
}

/// Writing bytes and reading the same range back gives the bytes written:
/// a write keeps every region's place and length.
pub proof fn lemma_write_then_read(before: &MockMemory, after: &MockMemory, addr: int, d: Seq<u8>)
    requires
        before.first_cover_from(addr, d.len() as int, 0) is Some,
        after.starts() == before.starts(),
        after.datas() == before.datas().update(
            before.first_cover_from(addr, d.len() as int, 0)->Some_0,
            splice(
                before.datas()[before.first_cover_from(addr, d.len() as int, 0)->Some_0],
                addr - before.starts()[before.first_cover_from(addr, d.len() as int, 0)->Some_0],
                d,
            ),
        ),
        before.datas().len() == before.starts().len(),
    ensures
        after.read_spec(addr, d.len() as int) == Some(d),
{
    let k = before.first_cover_from(addr, d.len() as int, 0)->Some_0;
    lemma_first_cover_bounds(before, addr, d.len() as int, 0);
    lemma_same_cover(before, after, addr, d.len() as int, 0);
    let off = addr - before.starts()[k];
    let s = before.datas()[k];
    assert(after.datas()[k] == splice(s, off, d));
    assert(splice(s, off, d).len() == s.len());
    assert(splice(s, off, d).subrange(off, off + d.len()) =~= d);
}

pub proof fn lemma_first_cover_bounds(m: &MockMemory, addr: int, size: int, i: int)
    ensures
        m.first_cover_from(addr, size, i) matches Some(k) ==> i <= k && m.covers(k, addr, size),
    decreases m.starts().len() - i,
{
    if 0 <= i < m.starts().len() && !m.covers(i, addr, size) {
        lemma_first_cover_bounds(m, addr, size, i + 1);
    }
}

/// Regions of the same places and lengths give the same first cover.
pub proof fn lemma_same_cover(a: &MockMemory, b: &MockMemory, addr: int, size: int, i: int)
    requires
        a.starts() == b.starts(),
        a.datas().len() == b.datas().len(),
        a.datas().len() == a.starts().len(),
        forall|j: int| 0 <= j < a.datas().len() ==> (#[trigger] a.datas()[j]).len() == b.datas()[j].len(),
    ensures
        a.first_cover_from(addr, size, i) == b.first_cover_from(addr, size, i),
    decreases a.starts().len() - i,
{
    if 0 <= i < a.starts().len() {
        assert(a.datas()[i].len() == b.datas()[i].len());
        lemma_same_cover(a, b, addr, size, i + 1);
    }
}

/// Decides `wf` for the reader, whose contract does not require it.
impl MockMemory {
    fn wf_exec(&self) -> (r: bool)
        ensures
            r == self.wf(),
    {
        let mut i: usize = 0;
        while i < self.regions.len()
            invariant
                i <= self.regions@.len(),
                forall|j: int| 0 <= j < i ==> (#[trigger] self.regions@[j]).start + self.regions@[j].data@.len() <= MOCK_LIMIT,
            decreases self.regions@.len() - i,
        {
            let r = &self.regions[i];
            if r.start > MOCK_LIMIT || r.data.len() as u64 > MOCK_LIMIT - r.start {
                return false;
            }
            i = i + 1;
        }
        true
    }
}

fn contains_usize(v: &Vec<usize>, x: usize) -> (r: bool)
    ensures
        r == v@.contains(x),
{
    let mut i: usize = 0;
    while i < v.len()
        invariant
            i <= v@.len(),
            forall|j: int| 0 <= j < i ==> v@[j] != x,
        decreases v@.len() - i,
    {
        if v[i] == x {
            return true;
        }
        i = i + 1;
    }
    false
}

/// Appends the low `digits` hexadecimal digits of `v`, most significant first.
fn push_hex(out: &mut Vec<u8>, v: u64, digits: usize)
    requires
        digits <= 16,
{
    let mut d = digits;
    while d > 0
        invariant
            d <= 16,
        decreases d,
    {
        d = d - 1;
        let shift = (d * 4) as u64;
        let nibble = ((v >> shift) & 15) as u8;
        assert(nibble < 16) by (bit_vector)
            requires
                nibble == ((v >> shift) & 15) as u8,
        ;
        if nibble < 10 {
            out.push(48 + nibble);
        } else {
            out.push(55 + nibble);
        }
    }
}

/// The low `n` little-endian bytes of `v`.
fn le_bytes_u64(v: u64, n: usize) -> (r: Vec<u8>)
    requires
        n <= 8,
    ensures
        r@.len() == n,
{
    let mut out: Vec<u8> = Vec::new();
    let mut t = v;
    let mut i: usize = 0;
    while i < n
        invariant
            i <= n,
            out@.len() == i,
        decreases n - i,
    {
        out.push((t % 256) as u8);
        t = t / 256;
        i = i + 1;
    }
    out
}

} // verus!
