use memscan::bitmap::PageStatusBitmap;
use memscan::mock_memory::{MemoryReader, MockMemory};

#[test]
fn test_malloc_and_write_read() {
    let mut mem = MockMemory::new();
    let addr = mem.malloc(0x1000, 1024 * 1024).unwrap();
    assert_eq!(addr, 0x1000);
    let test_data = b"Hello, World!";
    mem.mem_write(addr + 0x100, test_data).unwrap();
    let read_data = mem.mem_read(addr + 0x100, test_data.len()).unwrap();
    assert_eq!(read_data, test_data);
}

#[test]
fn test_typed_writes() {
    let mut mem = MockMemory::new();
    let addr = mem.malloc(0x10000, 4096).unwrap();
    mem.mem_write_u32(addr, 0x12345678).unwrap();
    mem.mem_write_u64(addr + 4, 0xDEADBEEFCAFEBABE).unwrap();
    mem.mem_write(addr + 12, &3.14159f32.to_le_bytes()).unwrap();
    let data = mem.mem_read(addr, 16).unwrap();
    assert_eq!(&data[0..4], &0x12345678u32.to_le_bytes());
    assert_eq!(&data[4..12], &0xDEADBEEFCAFEBABEu64.to_le_bytes());
}

#[test]
fn test_page_fault_simulation() {
    let mut mem = MockMemory::new();
    let addr = mem.malloc(0x100000, 32 * 1024).unwrap();
    for i in 0..8192u64 {
        mem.mem_write_u32(addr + i * 4, i as u32).unwrap();
    }
    mem.set_faulty_pages(addr, &[1, 3]).unwrap();
    let mut buffer = vec![0u8; 32 * 1024];
    let mut page_status = PageStatusBitmap::new(buffer.len(), addr);
    mem.read_memory(addr, &mut buffer, &mut page_status).unwrap();
    assert_eq!(page_status.success_count(), 6);
    assert_eq!(page_status.failed_pages().len(), 2);
}

#[test]
fn test_dump() {
    let mut mem = MockMemory::new();
    let addr = mem.malloc(0x1000, 4096).unwrap();
    mem.mem_write(addr, b"ABCDEFGHIJKLMNOP").unwrap();
    mem.mem_write_u32(addr + 16, 0xDEADBEEF).unwrap();
    let dump = String::from_utf8(mem.dump(addr, 32).unwrap()).unwrap();
    assert!(dump.contains("ABCDEFGHIJKLMNOP"));
}

#[test]
fn failed_reads_and_overlaps_are_errors() {
    let mut mem = MockMemory::new();
    let addr = mem.malloc(0x2000, 100).unwrap();
    assert_eq!(addr, 0x2000);
    assert!(mem.malloc(0x2800, 10).is_err());
    assert!(mem.mem_read(0x2000, 4097).is_err());
    assert!(mem.mem_write(0x5000, b"x").is_err());
    let dump = String::from_utf8(mem.dump(addr, 4).unwrap()).unwrap();
    assert!(dump.starts_with("0x00002000:  00 00 00 00"));
}
