use vstd::prelude::*;
use crate::bytes::{le_int, le_uint, pow256, read_le_uint, lemma_pow256_values, lemma_le_uint_bound};

verus! {

/// Primitive value types a query can name.
#[derive(Debug, Clone, Copy, PartialEq, Eq, Structural, Hash)]
pub enum ValueType {
    Byte,
    Word,
    Dword,
    Qword,
    Float,
    Double,
    Auto,
    Xor,
}

impl ValueType {
    pub open spec fn id_spec(self) -> i32 {
        match self {
            ValueType::Byte => 0,
            ValueType::Word => 1,
            ValueType::Dword => 2,
            ValueType::Qword => 3,
            ValueType::Float => 4,
            ValueType::Double => 5,
            ValueType::Auto => 6,
            ValueType::Xor => 7,
        }
    }

    pub open spec fn size_spec(self) -> usize {
        match self {
            ValueType::Byte => 1,
            ValueType::Word => 2,
            ValueType::Dword | ValueType::Float | ValueType::Auto | ValueType::Xor => 4,
            ValueType::Qword | ValueType::Double => 8,
        }
    }

    pub open spec fn is_float_spec(self) -> bool {
        self == ValueType::Float || self == ValueType::Double
    }

    /// The type whose suffix letter is `c`, in either case.
    pub open spec fn char_spec(c: char) -> Option<ValueType> {
        if c == 'B' || c == 'b' {
            Some(ValueType::Byte)
        } else if c == 'W' || c == 'w' {
            Some(ValueType::Word)
        } else if c == 'D' || c == 'd' {
            Some(ValueType::Dword)
        } else if c == 'Q' || c == 'q' {
            Some(ValueType::Qword)
        } else if c == 'F' || c == 'f' {
            Some(ValueType::Float)
        } else if c == 'E' || c == 'e' {
            Some(ValueType::Double)
        } else if c == 'A' || c == 'a' {
            Some(ValueType::Auto)
        } else if c == 'X' || c == 'x' {
            Some(ValueType::Xor)
        } else {
            None
        }
    }

    pub fn from_id(id: i32) -> (r: Option<Self>)
        ensures
            r is Some <==> 0 <= id <= 7,
            r matches Some(t) ==> t.id_spec() == id,
    {
        match id {
            0 => Some(ValueType::Byte),
            1 => Some(ValueType::Word),
            2 => Some(ValueType::Dword),
            3 => Some(ValueType::Qword),
            4 => Some(ValueType::Float),
            5 => Some(ValueType::Double),
            6 => Some(ValueType::Auto),
            7 => Some(ValueType::Xor),
            _ => None,
        }
    }

    pub fn to_id(&self) -> (r: i32)
        ensures
            r == self.id_spec(),
            0 <= r <= 7,
    {
        match self {
            ValueType::Byte => 0,
            ValueType::Word => 1,
            ValueType::Dword => 2,
            ValueType::Qword => 3,
            ValueType::Float => 4,
            ValueType::Double => 5,
            ValueType::Auto => 6,
            ValueType::Xor => 7,
        }
    }

    pub fn from_char(c: char) -> (r: Option<Self>)
        ensures
            r == Self::char_spec(c),
    {
        match c {
            'B' | 'b' => Some(ValueType::Byte),
            'W' | 'w' => Some(ValueType::Word),
            'D' | 'd' => Some(ValueType::Dword),
            'Q' | 'q' => Some(ValueType::Qword),
            'F' | 'f' => Some(ValueType::Float),
            'E' | 'e' => Some(ValueType::Double),
            'A' | 'a' => Some(ValueType::Auto),
            'X' | 'x' => Some(ValueType::Xor),
            _ => None,
        }
    }

    pub fn size(&self) -> (r: usize)
        ensures
            r == self.size_spec(),
            r == 1 || r == 2 || r == 4 || r == 8,
    {
        match self {
            ValueType::Byte => 1,
            ValueType::Word => 2,
            ValueType::Dword => 4,
            ValueType::Qword => 8,
            ValueType::Float => 4,
            ValueType::Double => 8,
            ValueType::Auto => 4,
            ValueType::Xor => 4,
        }
    }

    pub fn is_float_type(&self) -> (r: bool)
        ensures
            r == self.is_float_spec(),
    {
        match self {
            ValueType::Float | ValueType::Double => true,
            _ => false,
        }
    }

    /// The name of the type.
    pub fn name(&self) -> (r: &'static str)
    {
        match self {
            ValueType::Byte => "Byte",
            ValueType::Word => "Word",
            ValueType::Dword => "Dword",
            ValueType::Qword => "Qword",
            ValueType::Float => "Float",
            ValueType::Double => "Double",
            ValueType::Auto => "Auto",
            ValueType::Xor => "Xor",
        }
    }
}

/// Identifiers and types correspond one to one.
pub proof fn lemma_id_round_trip(t: ValueType)
    ensures
        0 <= t.id_spec() <= 7,
        forall|u: ValueType| u.id_spec() == t.id_spec() ==> u == t,
{
}

/// One value of a query.  Floating-point operands are kept as the text of
/// their literal (digit grouping removed); they are converted and compared
/// outside the verified core.
#[derive(Debug, Clone)]
pub enum SearchValue {
    FixedInt { value: i128, value_type: ValueType },
    FixedFloat { literal: Vec<u8>, value_type: ValueType },
    RangeInt { start: i128, end: i128, value_type: ValueType, exclude: bool },
    RangeFloat { low_literal: Vec<u8>, high_literal: Vec<u8>, value_type: ValueType, exclude: bool },
}

/// `v` reduced modulo `m`, into `[0, m)`.
pub open spec fn modulo(v: int, m: int) -> int {
    v % m
}

impl SearchValue {
    pub open spec fn type_spec(self) -> ValueType {
        match self {
            SearchValue::FixedInt { value_type, .. } => value_type,
            SearchValue::FixedFloat { value_type, .. } => value_type,
            SearchValue::RangeInt { value_type, .. } => value_type,
            SearchValue::RangeFloat { value_type, .. } => value_type,
        }
    }

    pub open spec fn is_int_spec(self) -> bool {
        self is FixedInt || self is RangeInt
    }

    pub open spec fn is_fixed_spec(self) -> bool {
        self is FixedInt || self is FixedFloat
    }

    /// Whether the bytes at the start of `b` satisfy this integer value: a
    /// fixed value compares the low `size` bytes of its two's-complement
    /// form, a range compares the sign-extended integer read from `b`.
    pub open spec fn matches_spec(self, b: Seq<u8>) -> bool {
        let n = self.type_spec().size_spec() as nat;
        match self {
            SearchValue::FixedInt { value, .. } => b.len() >= n && le_uint(b.take(n as int)) as int
                == modulo(value as int, pow256(n) as int),
            SearchValue::RangeInt { start, end, exclude, .. } => b.len() >= n && {
                let x = le_int(b.take(n as int));
                if exclude {
                    x < start || x > end
                } else {
                    start <= x && x <= end
                }
            },
            _ => false,
        }
    }

    pub fn fixed(value: i128, value_type: ValueType) -> (r: Self)
        ensures
            r == (SearchValue::FixedInt { value, value_type }),
    {
        SearchValue::FixedInt { value, value_type }
    }

    pub fn range(start: i128, end: i128, value_type: ValueType, exclude: bool) -> (r: Self)
        ensures
            r == (SearchValue::RangeInt { start, end, value_type, exclude }),
    {
        SearchValue::RangeInt { start, end, value_type, exclude }
    }

    pub fn value_type(&self) -> (r: ValueType)
        ensures
            r == self.type_spec(),
    {
        match self {
            SearchValue::FixedInt { value_type, .. } => *value_type,
            SearchValue::FixedFloat { value_type, .. } => *value_type,
            SearchValue::RangeInt { value_type, .. } => *value_type,
            SearchValue::RangeFloat { value_type, .. } => *value_type,
        }
    }

    pub fn is_fixed(&self) -> (r: bool)
        ensures
            r == self.is_fixed_spec(),
    {
        match self {
            SearchValue::FixedInt { .. } | SearchValue::FixedFloat { .. } => true,
            _ => false,
        }
    }

    pub fn is_int(&self) -> (r: bool)
        ensures
            r == self.is_int_spec(),
    {
        match self {
            SearchValue::FixedInt { .. } | SearchValue::RangeInt { .. } => true,
            _ => false,
        }
    }

    /// Tests the value against `buf[offset..]`.
    pub fn matched_at(&self, buf: &[u8], offset: usize) -> (r: bool)
        requires
            self.is_int_spec(),
            offset <= buf@.len(),
        ensures
            r == self.matches_spec(buf@.subrange(offset as int, buf@.len() as int)),
    {
        let ghost b = buf@.subrange(offset as int, buf@.len() as int);
        let vt = self.value_type();
        let n = vt.size();
        if buf.len() - offset < n {
            return false;
        }
        let u = read_le_uint(buf, offset, n);
        assert(buf@.subrange(offset as int, offset + n) =~= b.take(n as int));
        proof {
            lemma_pow256_values();
            lemma_le_uint_bound(b.take(n as int));
        }
        match self {
            SearchValue::FixedInt { value, .. } => {
                let m: i128 = match vt {
                    ValueType::Byte => 256,
                    ValueType::Word => 65536,
                    ValueType::Qword | ValueType::Double => 18446744073709551616,
                    _ => 4294967296,
                };
                let t = reduce(*value, m);
                t == u as i128
            },
            SearchValue::RangeInt { start, end, exclude, .. } => {
                let half: u64 = match vt {
                    ValueType::Byte => 128,
                    ValueType::Word => 32768,
                    ValueType::Qword | ValueType::Double => 9223372036854775808,
                    _ => 2147483648,
                };
                let full: i128 = half as i128 * 2;
                let x: i128 = if u >= half {
                    u as i128 - full
                } else {
                    u as i128
                };
                if *exclude {
                    x < *start || x > *end
                } else {
                    *start <= x && x <= *end
                }
            },
            _ => false,
        }
    }
}

/// `v mod m` for a positive modulus.
pub(crate) fn reduce(v: i128, m: i128) -> (r: i128)
    requires
        m > 0,
    ensures
        r == modulo(v as int, m as int),
        0 <= r < m,
{
    if v >= 0 {
        v % m
    } else {
        let a: i128 = -(v + 1);
        let q = a % m;
        proof {
            vstd::arithmetic::div_mod::lemma_fundamental_div_mod(a as int, m as int);
            let k = (a as int) / (m as int);
            assert(v as int == (-k - 1) * m + (m - 1 - q)) by (nonlinear_arith)
                requires
                    a == m * k + q,
                    v == -a - 1,
            ;
            vstd::arithmetic::div_mod::lemma_fundamental_div_mod_converse_mod(
                v as int,
                m as int,
                -k - 1,
                m - 1 - q,
            );
        }
        m - 1 - q
    }
}

#[derive(Debug, Clone, Copy, PartialEq, Eq, Structural)]
pub enum SearchMode {
    Unordered,
    Ordered,
}

/// A parsed query: one or more values and, for groups, a window size.
#[derive(Debug, Clone)]
pub struct SearchQuery {
    pub values: Vec<SearchValue>,
    pub mode: SearchMode,
    pub range: u16,
}

/// Sum of the sizes of the values' types.
pub open spec fn sizes_sum(vs: Seq<SearchValue>) -> nat
    decreases vs.len(),
{
    if vs.len() == 0 {
        0
    } else {
        sizes_sum(vs.drop_last()) + vs.last().type_spec().size_spec() as nat
    }
}

impl SearchQuery {
    /// Well-formed queries: 1 to 64 values, and a window of at least 2 for groups.
    pub open spec fn valid_spec(self) -> bool {
        &&& 1 <= self.values@.len() <= 64
        &&& (self.values@.len() >= 2 ==> self.range >= 2)
    }

    /// All values of the query are integers.
    pub open spec fn all_int(self) -> bool {
        forall|i: int| 0 <= i < self.values@.len() ==> (#[trigger] self.values@[i]).is_int_spec()
    }

    pub fn new(values: Vec<SearchValue>, mode: SearchMode, range: u16) -> (r: Self)
        ensures
            r.values@ == values@,
            r.mode == mode,
            r.range == range,
    {
        SearchQuery { values, mode, range }
    }

    /// Total byte size of the values, rounded up to a multiple of 4.
    pub fn total_size(&self) -> (r: usize)
        requires
            self.values@.len() <= 64,
        ensures
            r as int == (sizes_sum(self.values@) + 3) / 4 * 4,
    {
        let s = self.sum_sizes(self.values.len());
        assert(self.values@.take(self.values@.len() as int) =~= self.values@);
        (s + 3) / 4 * 4
    }

    /// Sum of the sizes of the first `k` values.
    pub fn sum_sizes(&self, k: usize) -> (r: usize)
        requires
            k <= self.values@.len() <= 64,
        ensures
            r == sizes_sum(self.values@.take(k as int)),
            r <= 8 * k,
    {
        let mut s: usize = 0;
        let mut i: usize = 0;
        while i < k
            invariant
                i <= k <= self.values@.len() <= 64,
                s == sizes_sum(self.values@.take(i as int)),
                s <= 8 * i,
            decreases k - i,
        {
            assert(self.values@.take(i + 1).drop_last() =~= self.values@.take(i as int));
            s = s + self.values[i].value_type().size();
            i = i + 1;
        }
        s
    }

    pub fn validate(&self) -> (r: Result<(), String>)
        ensures
            r is Ok <==> self.valid_spec(),
    {
        if self.values.len() == 0 {
            return Err("No values specified".to_string());
        }
        if self.values.len() > 64 {
            return Err("Maximum 64 values allowed".to_string());
        }
        if self.values.len() >= 2 && self.range < 2 {
            return Err("Range must be at least 2 for group search".to_string());
        }
        Ok(())
    }

    pub fn is_all_int(&self) -> (r: bool)
        ensures
            r == self.all_int(),
    {
        let mut i: usize = 0;
        while i < self.values.len()
            invariant
                i <= self.values@.len(),
                forall|j: int| 0 <= j < i ==> (#[trigger] self.values@[j]).is_int_spec(),
            decreases self.values@.len() - i,
        {
            if !self.values[i].is_int() {
                return false;
            }
            i = i + 1;
        }
        true
    }
}

} // verus!
