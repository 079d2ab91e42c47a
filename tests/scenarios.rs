use memscan::mock_memory::MockMemory;
use memscan::parser::parse_search_query;
use memscan::refine::{refine_search_group_with_dfs, refine_search_group_with_dfs_and_cancel, refine_single_search, ReadValue};
use memscan::region::{search_region, search_region_group, search_region_group_with_cancel};
use memscan::types::{SearchMode, SearchValue, ValueType};

#[test]
fn single_value_with_page_faults() {
    let mut mem = MockMemory::new();
    let base = mem.malloc(0x9000000000, 128 * 1024).unwrap();
    for i in 0..32u64 {
        mem.mem_write_u32(base + i * 4096 + 0x100, 0xCAFEBABE).unwrap();
    }
    mem.set_faulty_pages(base, &[1, 3, 5, 7]).unwrap();
    let target = SearchValue::fixed(0xCAFEBABE, ValueType::Dword);
    let results = search_region(&mem, &target, base, base + 128 * 1024, 16 * 1024);
    let found = results.keys();
    let expected: Vec<u64> = (0..32u64)
        .filter(|i| ![1, 3, 5, 7].contains(i))
        .map(|i| base + i * 4096 + 0x100)
        .collect();
    assert_eq!(found.len(), 28);
    assert_eq!(found, expected);
}

#[test]
fn group_ordered_across_chunk_boundary() {
    let mut mem = MockMemory::new();
    let base = mem.malloc(0x100000, 128 * 1024).unwrap();
    let chunk = 1024u64;
    for (i, v) in [111u32, 222, 333].iter().enumerate() {
        mem.mem_write_u32(base + chunk - 8 + 4 * i as u64, *v).unwrap();
        mem.mem_write_u32(base + 0x2000 + 4 * i as u64, *v).unwrap();
    }
    let query = parse_search_query("111D;222D;333D::32", ValueType::Dword).unwrap();
    assert_eq!(query.mode, SearchMode::Ordered);
    let results = search_region_group(&mem, &query, base, base + 128 * 1024, chunk as usize, false);
    let found = results.keys();
    for start in [base + chunk - 8, base + 0x2000] {
        for k in 0..3u64 {
            assert!(found.contains(&(start + 4 * k)));
        }
    }
    assert_eq!(found.len(), 6);
}

#[test]
fn group_unordered_complete_sequences_only() {
    let mut mem = MockMemory::new();
    let base = mem.malloc(0x200000, 512 * 1024).unwrap();
    let write = |mem: &mut MockMemory, at: u64, vals: &[u32]| {
        for (i, v) in vals.iter().enumerate() {
            if *v != 0 {
                mem.mem_write_u32(at + 4 * i as u64, *v).unwrap();
            }
        }
    };
    write(&mut mem, base + 0x1000, &[300, 100, 200]);
    write(&mut mem, base + 0x3000, &[200, 0, 300, 0, 100]);
    write(&mut mem, base + 0x5000, &[100, 200, 300]);
    write(&mut mem, base + 0x7000, &[100, 200]);
    let query = parse_search_query("100D;200D;300D:32", ValueType::Dword).unwrap();
    assert_eq!(query.mode, SearchMode::Unordered);
    let results = search_region_group(&mem, &query, base, base + 512 * 1024, 64 * 1024, false);
    let found = results.keys();
    let expected = vec![
        base + 0x1000,
        base + 0x1004,
        base + 0x1008,
        base + 0x3000,
        base + 0x3008,
        base + 0x3010,
        base + 0x5000,
        base + 0x5004,
        base + 0x5008,
    ];
    assert_eq!(found, expected);
}

#[test]
fn deep_group_finds_every_combination() {
    let mut mem = MockMemory::new();
    let base = mem.malloc(0x300000, 64 * 1024).unwrap();
    let at = base + 0x800;
    for (i, v) in [100u32, 200, 300, 300].iter().enumerate() {
        mem.mem_write_u32(at + 4 * i as u64, *v).unwrap();
    }
    let query = parse_search_query("100D;200D;300D::16", ValueType::Dword).unwrap();
    let greedy = search_region_group(&mem, &query, base, base + 64 * 1024, 4096, false).keys();
    assert_eq!(greedy, vec![at, at + 4, at + 8]);
    let deep = search_region_group(&mem, &query, base, base + 64 * 1024, 4096, true).keys();
    assert_eq!(deep, vec![at, at + 4, at + 8, at + 12]);
}

#[test]
fn range_refine_keeps_rewritten_values() {
    let mut mem = MockMemory::new();
    let base = mem.malloc(0x400000, 1024 * 1024).unwrap();
    for i in 0..100u64 {
        mem.mem_write_u32(base + i * 1024, 100).unwrap();
    }
    let target = SearchValue::fixed(100, ValueType::Dword);
    let found = search_region(&mem, &target, base, base + 1024 * 1024, 64 * 1024).keys();
    assert_eq!(found.len(), 100);
    for (i, addr) in found.iter().enumerate() {
        let v = if i % 3 == 0 { 200 } else if i % 3 == 1 { 300 } else { 100 };
        mem.mem_write_u32(*addr, v).unwrap();
    }
    let read_back: Vec<ReadValue> = found
        .iter()
        .map(|a| ReadValue { addr: *a, value_type: ValueType::Dword, bytes: mem.mem_read(*a, 4).unwrap() })
        .collect();
    let query = parse_search_query("200D", ValueType::Dword).unwrap();
    let kept = refine_single_search(&read_back, &query.values[0]);
    let expected: Vec<(u64, ValueType)> = found
        .iter()
        .enumerate()
        .filter(|(i, _)| i % 3 == 0)
        .map(|(_, a)| (*a, ValueType::Dword))
        .collect();
    assert_eq!(kept, expected);
}

#[test]
fn refine_with_same_query_keeps_everything() {
    let mut mem = MockMemory::new();
    let base = mem.malloc(0x500000, 64 * 1024).unwrap();
    for i in 0..10u64 {
        mem.mem_write_u32(base + i * 100 * 4, 77).unwrap();
    }
    let target = SearchValue::fixed(77, ValueType::Dword);
    let found = search_region(&mem, &target, base, base + 64 * 1024, 8192).keys();
    let read_back: Vec<ReadValue> = found
        .iter()
        .map(|a| ReadValue { addr: *a, value_type: ValueType::Dword, bytes: mem.mem_read(*a, 4).unwrap() })
        .collect();
    let kept = refine_single_search(&read_back, &target);
    assert_eq!(kept.len(), found.len());
    assert_eq!(kept.iter().map(|p| p.0).collect::<Vec<_>>(), found);
}

#[test]
fn group_refine_by_depth_first_search() {
    let rv = |addr: u64, v: u32| ReadValue { addr, value_type: ValueType::Dword, bytes: v.to_le_bytes().to_vec() };
    let values = vec![rv(0x1000, 100), rv(0x1004, 200), rv(0x1008, 300), rv(0x100C, 300), rv(0x2000, 200), rv(0x3000, 100)];
    let query = parse_search_query("100D;200D;300D:16", ValueType::Dword).unwrap();
    let found = refine_search_group_with_dfs(&values, &query).keys();
    assert_eq!(found, vec![0x1000, 0x1004, 0x1008, 0x100C]);
}

#[test]
fn aligned_addresses_only() {
    let mut mem = MockMemory::new();
    let base = mem.malloc(0x600000, 4096).unwrap();
    mem.mem_write_u32(base + 2, 0x11223344).unwrap();
    mem.mem_write_u32(base + 8, 0x11223344).unwrap();
    let target = SearchValue::fixed(0x11223344, ValueType::Dword);
    let found = search_region(&mem, &target, base, base + 4096, 1024).keys();
    assert_eq!(found, vec![base + 8]);
}

#[test]
fn deep_search_stops_when_cancelled() {
    let mut mem = MockMemory::new();
    let base = mem.malloc(0x700000, 64 * 1024).unwrap();
    for (i, v) in [100u32, 200, 300, 300].iter().enumerate() {
        mem.mem_write_u32(base + 0x800 + 4 * i as u64, *v).unwrap();
    }
    let query = parse_search_query("100D;200D;300D::16", ValueType::Dword).unwrap();
    let stop = || true;
    assert!(search_region_group_with_cancel(&mem, &query, base, base + 64 * 1024, 4096, true, &stop).is_none());
    let go = || false;
    let found = search_region_group_with_cancel(&mem, &query, base, base + 64 * 1024, 4096, true, &go).unwrap();
    assert_eq!(found.len(), 4);
}

#[test]
fn group_refine_stops_when_cancelled() {
    let rv = |addr: u64, v: u32| ReadValue { addr, value_type: ValueType::Dword, bytes: v.to_le_bytes().to_vec() };
    let mut values = Vec::new();
    for i in 0..40u64 {
        values.push(rv(0x1000 + 4 * i, if i == 0 { 100 } else { 200 }));
    }
    let query = parse_search_query("100D;200D;200D;200D:200", ValueType::Dword).unwrap();
    let stop = || true;
    assert!(refine_search_group_with_dfs_and_cancel(&values, &query, &stop).is_none());
    let go = || false;
    let found = refine_search_group_with_dfs_and_cancel(&values, &query, &go).unwrap();
    assert_eq!(found.len(), 40);
}

#[test]
fn deep_unordered_takes_any_order_around_each_position() {
    let mut mem = MockMemory::new();
    let base = mem.malloc(0x800000, 64 * 1024).unwrap();
    let at = base + 0x800;
    for (i, v) in [300u32, 100, 200].iter().enumerate() {
        mem.mem_write_u32(at + 4 * i as u64, *v).unwrap();
    }
    let query = parse_search_query("100D;200D;300D:16", ValueType::Dword).unwrap();
    let deep = search_region_group(&mem, &query, base, base + 64 * 1024, 4096, true).keys();
    assert_eq!(deep, vec![at, at + 4, at + 8]);
}

#[test]
fn group_refine_assigns_values_in_any_order() {
    let rv = |addr: u64, v: u32| ReadValue { addr, value_type: ValueType::Dword, bytes: v.to_le_bytes().to_vec() };
    let values = vec![rv(0x1000, 300), rv(0x1004, 200), rv(0x1008, 100)];
    let query = parse_search_query("100D;200D;300D:16", ValueType::Dword).unwrap();
    let found = refine_search_group_with_dfs(&values, &query).keys();
    assert_eq!(found, vec![0x1000, 0x1004, 0x1008]);
}

#[test]
fn group_hits_sit_on_aligned_addresses() {
    let mut mem = MockMemory::new();
    let base = mem.malloc(0x900000, 4096).unwrap();
    mem.mem_write_u32(base + 0x100, 7).unwrap();
    mem.mem_write_u32(base + 0x106, 9).unwrap();
    mem.mem_write_u32(base + 0x108, 9).unwrap();
    let query = parse_search_query("7D;9D:16", ValueType::Dword).unwrap();
    let found = search_region_group(&mem, &query, base, base + 4096, 4096, false).keys();
    assert_eq!(found, vec![base + 0x100, base + 0x108]);
}
