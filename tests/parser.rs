use memscan::parser::parse_search_query;
use memscan::types::{SearchMode, SearchValue, ValueType};

#[test]
fn single_dword() {
    let q = parse_search_query("100D", ValueType::Byte).unwrap();
    assert_eq!(q.values.len(), 1);
    assert!(matches!(q.values[0], SearchValue::FixedInt { value: 100, value_type: ValueType::Dword }));
    assert_eq!(q.mode, SearchMode::Unordered);
    assert_eq!(q.range, 512);
}

#[test]
fn mixed_group_with_hex_and_commas() {
    let q = parse_search_query("BAADh;1,77D;100~1,000F::512", ValueType::Qword).unwrap();
    assert_eq!(q.values.len(), 3);
    assert!(matches!(q.values[0], SearchValue::FixedInt { value: 0xBAAD, value_type: ValueType::Qword }));
    assert!(matches!(q.values[1], SearchValue::FixedInt { value: 177, value_type: ValueType::Dword }));
    match &q.values[2] {
        SearchValue::RangeFloat { low_literal, high_literal, value_type, exclude } => {
            assert_eq!(low_literal.as_slice(), b"100");
            assert_eq!(high_literal.as_slice(), b"1000");
            assert_eq!(*value_type, ValueType::Float);
            assert!(!exclude);
        }
        _ => panic!("expected a float range"),
    }
    assert_eq!(q.mode, SearchMode::Ordered);
    assert_eq!(q.range, 512);
}

#[test]
fn ranges_inclusive_and_excluded() {
    let q = parse_search_query("10~20D:64", ValueType::Byte).unwrap();
    assert!(matches!(q.values[0], SearchValue::RangeInt { start: 10, end: 20, value_type: ValueType::Dword, exclude: false }));
    assert_eq!(q.range, 64);
    let q = parse_search_query("50~100~~D", ValueType::Byte);
    assert!(q.is_err());
    let q = parse_search_query("50~~100D", ValueType::Byte).unwrap();
    assert!(matches!(q.values[0], SearchValue::RangeInt { start: 50, end: 100, value_type: ValueType::Dword, exclude: true }));
}

#[test]
fn rejected_queries() {
    assert!(parse_search_query("100D;200D:1", ValueType::Dword).is_err());
    assert!(parse_search_query("20~10D", ValueType::Dword).is_err());
    assert!(parse_search_query("1~2D~3", ValueType::Dword).is_err());
    assert!(parse_search_query("1D~2W", ValueType::Dword).is_err());
    assert!(parse_search_query("18446744073709551616D", ValueType::Dword).is_err());
    assert!(parse_search_query("1.5hF", ValueType::Dword).is_err());
    assert!(parse_search_query("", ValueType::Dword).is_err());
}

#[test]
fn value_type_tables() {
    assert_eq!(ValueType::from_id(3), Some(ValueType::Qword));
    assert_eq!(ValueType::from_id(8), None);
    assert_eq!(ValueType::Xor.to_id(), 7);
    assert_eq!(ValueType::from_char('e'), Some(ValueType::Double));
    assert_eq!(ValueType::from_char('z'), None);
    assert_eq!(ValueType::Word.size(), 2);
    assert!(ValueType::Double.is_float_type());
    assert_eq!(ValueType::Auto.name(), "Auto");
}

#[test]
fn matching_reads_little_endian_bytes() {
    let v = SearchValue::fixed(300, ValueType::Byte);
    assert!(v.matched_at(&[44], 0));
    let v = SearchValue::fixed(-1, ValueType::Word);
    assert!(v.matched_at(&[0, 0xFF, 0xFF], 1));
    let r = SearchValue::range(-5, 5, ValueType::Dword, false);
    assert!(r.matched_at(&(-3i32).to_le_bytes(), 0));
    assert!(!r.matched_at(&6i32.to_le_bytes(), 0));
    let x = SearchValue::range(-5, 5, ValueType::Dword, true);
    assert!(x.matched_at(&6i32.to_le_bytes(), 0));
    assert!(!x.matched_at(&[1, 2, 3], 0));
}

#[test]
fn total_size_rounds_up() {
    let q = parse_search_query("1B;2W;3D", ValueType::Dword).unwrap();
    assert_eq!(q.total_size(), 8);
    assert!(q.validate().is_ok());
}
#[test]
fn test_parse_simple() {
    let query = parse_search_query("100D;200F", ValueType::Dword).unwrap();
    assert_eq!(query.values.len(), 2);
    assert_eq!(query.mode, SearchMode::Unordered);
    assert_eq!(query.range, 512);
}

#[test]
fn test_parse_with_range() {
    let query = parse_search_query("100D;200F:1024", ValueType::Dword).unwrap();
    assert_eq!(query.range, 1024);
    assert_eq!(query.mode, SearchMode::Unordered);
}

#[test]
fn test_parse_ordered() {
    let query = parse_search_query("100D;200F::256", ValueType::Dword).unwrap();
    assert_eq!(query.mode, SearchMode::Ordered);
    assert_eq!(query.range, 256);
}

#[test]
fn test_parse_hex() {
    let query = parse_search_query("10h;FFh", ValueType::Dword).unwrap();
    assert_eq!(query.values.len(), 2);
}

#[test]
fn test_parse_comma_separator() {
    let query = parse_search_query("1,000D;2,000D", ValueType::Dword).unwrap();
    assert_eq!(query.values.len(), 2);
}

#[test]
fn test_parse_mixed() {
    let query = parse_search_query("BAADh;1,77D;100~1,000F::512", ValueType::Dword).unwrap();
    assert_eq!(query.values.len(), 3);
    assert_eq!(query.mode, SearchMode::Ordered);
    assert_eq!(query.range, 512);
}

#[test]
fn test_single_value_search() {
    let query = parse_search_query("100D", ValueType::Dword).unwrap();
    assert_eq!(query.values.len(), 1);
}

#[test]
fn test_validation_invalid_range() {
    let result = parse_search_query("100D;200D:1", ValueType::Dword);
    assert!(result.is_err());
}

#[test]
fn test_parse_float_values() {
    let query = parse_search_query("1.0F", ValueType::Float).unwrap();
    assert_eq!(query.values.len(), 1);
    assert!(matches!(query.values[0], SearchValue::FixedFloat { .. }));
    assert_eq!(query.values[0].value_type(), ValueType::Float);
}

#[test]
fn test_parse_float_with_type() {
    let query = parse_search_query("3.14F;2.718E", ValueType::Float).unwrap();
    assert_eq!(query.values.len(), 2);
    assert!(matches!(query.values[0], SearchValue::FixedFloat { .. }));
    assert_eq!(query.values[0].value_type(), ValueType::Float);
    assert_eq!(query.values[1].value_type(), ValueType::Double);
}

#[test]
fn test_parse_float_range() {
    let query = parse_search_query("1.0~10.5F", ValueType::Float).unwrap();
    assert_eq!(query.values.len(), 1);
    assert!(matches!(query.values[0], SearchValue::RangeFloat { .. }));
}

#[test]
fn test_parse_float_with_comma_separator() {
    let query = parse_search_query("1,234.56F", ValueType::Float).unwrap();
    assert_eq!(query.values.len(), 1);
    assert!(matches!(query.values[0], SearchValue::FixedFloat { .. }));
}
