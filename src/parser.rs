use vstd::prelude::*;
use crate::lexer::{Lexer, Token, parse_digits, lex_from, literal_digits, digits_value, well_formed_digits, i128_max, strip_commas};
use crate::types::{SearchMode, SearchQuery, SearchValue, ValueType};
use vstd::string::StringSliceAdditionalSpecFns;

verus! {

/// A parsed value: integers as numbers, floating-point operands as the text
/// of their literal with grouping commas removed.
pub enum ValueSpec {
    Fixed(int, ValueType),
    FixedFloat(Seq<u8>, ValueType),
    Range(int, int, ValueType, bool),
    RangeFloat(Seq<u8>, Seq<u8>, ValueType, bool),
}

pub open spec fn value_view(v: SearchValue) -> ValueSpec {
    match v {
        SearchValue::FixedInt { value, value_type } => ValueSpec::Fixed(value as int, value_type),
        SearchValue::FixedFloat { literal, value_type } => ValueSpec::FixedFloat(literal@, value_type),
        SearchValue::RangeInt { start, end, value_type, exclude } => ValueSpec::Range(
            start as int,
            end as int,
            value_type,
            exclude,
        ),
        SearchValue::RangeFloat { low_literal, high_literal, value_type, exclude } => ValueSpec::RangeFloat(
            low_literal@,
            high_literal@,
            value_type,
            exclude,
        ),
    }
}

pub open spec fn i64_min() -> int {
    -9223372036854775808
}

pub open spec fn i64_max() -> int {
    9223372036854775807
}

/// The integer denoted by the literal `text[s..e]`.
pub open spec fn int_lit(text: Seq<u8>, s: int, e: int, hex: bool) -> Option<int> {
    let ds = literal_digits(text.subrange(s, e));
    if well_formed_digits(ds, hex) && digits_value(ds, hex) <= i128_max() {
        Some(digits_value(ds, hex) as int)
    } else {
        None
    }
}

/// A floating-point literal: refused with the hexadecimal suffix.
pub open spec fn float_lit(text: Seq<u8>, s: int, e: int, hex: bool) -> Option<Seq<u8>> {
    if hex {
        None
    } else {
        Some(strip_commas(text.subrange(s, e)))
    }
}

/// A fixed value of type `vt` written as the literal `n`: integers must lie
/// within `i64`.
pub open spec fn fixed_spec(text: Seq<u8>, n: (usize, usize, bool), vt: ValueType) -> Option<ValueSpec> {
    if vt.is_float_spec() {
        match float_lit(text, n.0 as int, n.1 as int, n.2) {
            Some(l) => Some(ValueSpec::FixedFloat(l, vt)),
            None => None,
        }
    } else {
        match int_lit(text, n.0 as int, n.1 as int, n.2) {
            Some(v) => if v > i64_max() || v < i64_min() {
                None
            } else {
                Some(ValueSpec::Fixed(v, vt))
            },
            None => None,
        }
    }
}

/// A range of type `vt` from literal `a` to literal `b`: integer bounds must
/// lie within `i64` and be ordered.
pub open spec fn range_spec(text: Seq<u8>, a: (usize, usize, bool), b: (usize, usize, bool), vt: ValueType, exclude: bool) -> Option<ValueSpec> {
    if vt.is_float_spec() {
        match (float_lit(text, a.0 as int, a.1 as int, a.2), float_lit(text, b.0 as int, b.1 as int, b.2)) {
            (Some(lo), Some(hi)) => Some(ValueSpec::RangeFloat(lo, hi, vt, exclude)),
            _ => None,
        }
    } else {
        match (int_lit(text, a.0 as int, a.1 as int, a.2), int_lit(text, b.0 as int, b.1 as int, b.2)) {
            (Some(lo), Some(hi)) => if lo > i64_max() || hi > i64_max() || lo < i64_min() || hi < i64_min() || lo > hi {
                None
            } else {
                Some(ValueSpec::Range(lo, hi, vt, exclude))
            },
            _ => None,
        }
    }
}

pub open spec fn tok_at(toks: Seq<Token>, i: int) -> Option<Token> {
    if 0 <= i < toks.len() {
        Some(toks[i])
    } else {
        None
    }
}

/// The rest of a range after its operator, at token `i`: the end literal and
/// an optional type, which gives the range's type, else `default`.
pub open spec fn range_tail(text: Seq<u8>, toks: Seq<Token>, i: int, n: (usize, usize, bool), default: ValueType, exclude: bool) -> Option<(ValueSpec, int)> {
    match tok_at(toks, i) {
        Some(Token::Number(s, e, h)) => {
            let (vt, k) = match tok_at(toks, i + 1) {
                Some(Token::Type(t)) => (t, i + 2),
                _ => (default, i + 1),
            };
            match range_spec(text, n, (s, e, h), vt, exclude) {
                Some(v) => Some((v, k)),
                None => None,
            }
        },
        _ => None,
    }
}

/// The rest of a range whose start carried type `vt`: an end type, if
/// written, must be the same.
pub open spec fn typed_range_tail(text: Seq<u8>, toks: Seq<Token>, i: int, n: (usize, usize, bool), vt: ValueType, exclude: bool) -> Option<(ValueSpec, int)> {
    match tok_at(toks, i) {
        Some(Token::Number(s, e, h)) => {
            let k = match tok_at(toks, i + 1) {
                Some(Token::Type(t)) => if t != vt {
                    -1
                } else {
                    i + 2
                },
                _ => i + 1,
            };
            if k < 0 {
                None
            } else {
                match range_spec(text, n, (s, e, h), vt, exclude) {
                    Some(v) => Some((v, k)),
                    None => None,
                }
            }
        },
        _ => None,
    }
}

/// The value that starts at token `i`, with the index after it.
pub open spec fn value_spec(text: Seq<u8>, toks: Seq<Token>, i: int, default: ValueType) -> Option<(ValueSpec, int)> {
    match tok_at(toks, i) {
        Some(Token::Number(s, e, h)) => {
            let n = (s, e, h);
            match tok_at(toks, i + 1) {
                Some(Token::Tilde) => range_tail(text, toks, i + 2, n, default, false),
                Some(Token::DoubleTilde) => range_tail(text, toks, i + 2, n, default, true),
                Some(Token::Type(vt)) => match tok_at(toks, i + 2) {
                    Some(Token::Tilde) => typed_range_tail(text, toks, i + 3, n, vt, false),
                    Some(Token::DoubleTilde) => typed_range_tail(text, toks, i + 3, n, vt, true),
                    _ => match fixed_spec(text, n, vt) {
                        Some(v) => Some((v, i + 2)),
                        None => None,
                    },
                },
                _ => match fixed_spec(text, n, default) {
                    Some(v) => Some((v, i + 1)),
                    None => None,
                },
            }
        },
        _ => None,
    }
}

/// The values, separated by semicolons, from token `i`, with the index after them.
pub open spec fn values_spec(text: Seq<u8>, toks: Seq<Token>, i: int, default: ValueType) -> Option<(Seq<ValueSpec>, int)>
    decreases toks.len() - i,
{
    match value_spec(text, toks, i, default) {
        None => None,
        Some((v, j)) => if i < j && tok_at(toks, j) == Some(Token::Semicolon) {
            match values_spec(text, toks, j + 1, default) {
                Some((vs, k)) => Some((seq![v] + vs, k)),
                None => None,
            }
        } else {
            Some((seq![v], j))
        },
    }
}

/// The window size after a colon, at token `i`: 2 to 65536, which wraps to
/// 0 in 16 bits; 512 when absent.
pub open spec fn size_spec(text: Seq<u8>, toks: Seq<Token>, i: int) -> Option<(u16, int)> {
    match tok_at(toks, i) {
        None => Some((512, i)),
        Some(Token::Number(s, e, h)) => match int_lit(text, s as int, e as int, h) {
            Some(v) => if v < 2 || v > 65536 {
                None
            } else if v == 65536 {
                Some((0, i + 1))
            } else {
                Some((v as u16, i + 1))
            },
            None => None,
        },
        _ => None,
    }
}

/// Mode and window from token `i`: `:` unordered, `::` ordered; nothing
/// there means unordered with 512.
pub open spec fn specifier_spec(text: Seq<u8>, toks: Seq<Token>, i: int) -> Option<(SearchMode, u16, int)> {
    match tok_at(toks, i) {
        None => Some((SearchMode::Unordered, 512, i)),
        Some(Token::Colon) => match size_spec(text, toks, i + 1) {
            Some((r, k)) => Some((SearchMode::Unordered, r, k)),
            None => None,
        },
        Some(Token::DoubleColon) => match size_spec(text, toks, i + 1) {
            Some((r, k)) => Some((SearchMode::Ordered, r, k)),
            None => None,
        },
        _ => None,
    }
}

/// The query the tokens spell: values, then the specifier, then nothing
/// more; 1 to 64 values, and a window of at least 2 for groups.
pub open spec fn query_spec(text: Seq<u8>, toks: Seq<Token>, default: ValueType) -> Option<(Seq<ValueSpec>, SearchMode, u16)> {
    match values_spec(text, toks, 0, default) {
        Some((vs, i)) => match specifier_spec(text, toks, i) {
            Some((m, r, k)) => if k == toks.len() && 1 <= vs.len() <= 64 && (vs.len() >= 2 ==> r >= 2) {
                Some((vs, m, r))
            } else {
                None
            },
            None => None,
        },
        None => None,
    }
}

/// The query a text spells, or `None` when it is refused.
pub open spec fn parse_spec(text: Seq<u8>, default: ValueType) -> Option<(Seq<ValueSpec>, SearchMode, u16)> {
    match lex_from(text, 0) {
        Some(toks) => query_spec(text, toks, default),
        None => None,
    }
}

/// Builds a query from the tokens of its text.
pub struct Parser {
    text: Vec<u8>,
    tokens: Vec<Token>,
    pos: usize,
    default_type: ValueType,
}

/// Tokens hold spans that lie within the text.
pub open spec fn spans_within(tokens: Seq<Token>, len: nat) -> bool {
    forall|i: int|
        0 <= i < tokens.len() ==> match #[trigger] tokens[i] {
            Token::Number(s, e, _) => s <= e <= len,
            _ => true,
        }
}

pub proof fn lemma_lex_spans(b: Seq<u8>, pos: int)
    requires
        0 <= pos <= b.len(),
        b.len() <= usize::MAX,
    ensures
        lex_from(b, pos) matches Some(ts) ==> spans_within(ts, b.len()),
    decreases b.len() - pos,
{
    crate::lexer::lemma_step_advances(b, pos);
    crate::lexer::lemma_skip_space_bounds(b, pos);
    match crate::lexer::lex_step(b, pos) {
        crate::lexer::Step::Tok(t, e) => {
            if pos < e <= b.len() {
                lemma_lex_spans(b, e);
                match lex_from(b, e) {
                    Some(rest) => {
                        let ts = seq![t] + rest;
                        assert forall|i: int| 0 <= i < ts.len() implies match #[trigger] ts[i] {
                            Token::Number(s, e2, _) => s <= e2 <= b.len(),
                            _ => true,
                        } by {
                            if i > 0 {
                                assert(ts[i] == rest[i - 1]);
                            } else {
                                let p = crate::lexer::skip_space(b, pos);
                                crate::lexer::lemma_scan_number_bounds(b, p, false);
                            }
                        }
                    },
                    None => {},
                }
            }
        },
        _ => {},
    }
}

impl Parser {
    pub closed spec fn wf(&self) -> bool {
        &&& self.pos <= self.tokens@.len()
        &&& spans_within(self.tokens@, self.text@.len())
    }

    pub closed spec fn token_seq(&self) -> Seq<Token> {
        self.tokens@
    }

    pub closed spec fn text_spec(&self) -> Seq<u8> {
        self.text@
    }

    pub closed spec fn position(&self) -> int {
        self.pos as int
    }

    pub closed spec fn default_spec(&self) -> ValueType {
        self.default_type
    }

    pub fn new(input: &str, default_type: ValueType) -> (r: Result<Self, String>)
        ensures
            r is Ok <==> lex_from(input.spec_bytes(), 0) is Some,
            r matches Ok(p) ==> p.wf() && p.token_seq() == lex_from(input.spec_bytes(), 0)->Some_0
                && p.text_spec() == input.spec_bytes() && p.position() == 0 && p.default_spec()
                == default_type,
    {
        let mut lexer = Lexer::new(input);
        let tokens = lexer.tokenize()?;
        let text = lexer.into_text();
        let text_len: usize = text.len();
        proof {
            assert(text@.len() == text_len);
            lemma_lex_spans(text@, 0);
        }
        Ok(Parser { text, tokens, pos: 0, default_type })
    }

    fn peek(&self) -> (r: Option<Token>)
        ensures
            r == (if self.pos < self.tokens@.len() {
                Some(self.tokens@[self.pos as int])
            } else {
                None::<Token>
            }),
    {
        if self.pos < self.tokens.len() {
            Some(self.tokens[self.pos])
        } else {
            None
        }
    }

    fn peek_at(&self, offset: usize) -> (r: Option<Token>)
        ensures
            r == (if self.pos + offset < self.tokens@.len() {
                Some(self.tokens@[self.pos + offset])
            } else {
                None::<Token>
            }),
    {
        if offset < self.tokens.len() && self.pos < self.tokens.len() - offset {
            Some(self.tokens[self.pos + offset])
        } else {
            None
        }
    }

    fn advance(&mut self) -> (r: Option<Token>)
        requires
            old(self).wf(),
        ensures
            final(self).wf(),
            final(self).tokens@ == old(self).tokens@,
            final(self).text@ == old(self).text@,
            final(self).default_type == old(self).default_type,
            r == (if old(self).pos < old(self).tokens@.len() {
                Some(old(self).tokens@[old(self).pos as int])
            } else {
                None::<Token>
            }),
            final(self).pos == (if old(self).pos < old(self).tokens@.len() {
                old(self).pos + 1
            } else {
                old(self).pos as int
            }),
    {
        if self.pos < self.tokens.len() {
            let t = self.tokens[self.pos];
            self.pos = self.pos + 1;
            Some(t)
        } else {
            None
        }
    }

    /// Consumes one token of the same kind as `expected`.
    fn expect(&mut self, expected: Token) -> (r: Result<(), String>)
        requires
            old(self).wf(),
        ensures
            final(self).wf(),
            final(self).tokens@ == old(self).tokens@,
            final(self).text@ == old(self).text@,
            final(self).default_type == old(self).default_type,
            r is Ok <==> old(self).pos < old(self).tokens@.len() && same_kind(
                old(self).tokens@[old(self).pos as int],
                expected,
            ),
    {
        match self.advance() {
            Some(t) => if kind_matches(t, expected) {
                Ok(())
            } else {
                Err("Unexpected token".to_string())
            },
            None => Err("Unexpected end of input".to_string()),
        }
    }

    /// The bytes of the literal `[s, e)`.
    fn literal(&self, s: usize, e: usize) -> (r: Vec<u8>)
        requires
            s <= e <= self.text@.len(),
        ensures
            r@ == self.text@.subrange(s as int, e as int),
    {
        let mut out: Vec<u8> = Vec::new();
        let mut i = s;
        while i < e
            invariant
                s <= i <= e <= self.text@.len(),
                out@ == self.text@.subrange(s as int, i as int),
            decreases e - i,
        {
            out.push(self.text[i]);
            i = i + 1;
            assert(out@ =~= self.text@.subrange(s as int, i as int));
        }
        out
    }


    /// The text of a floating-point literal with its grouping commas removed.
    fn float_literal(&self, s: usize, e: usize, is_hex: bool) -> (r: Result<Vec<u8>, String>)
        requires
            s <= e <= self.text@.len(),
        ensures
            r is Ok <==> float_lit(self.text@, s as int, e as int, is_hex) is Some,
            r matches Ok(l) ==> l@ == float_lit(self.text@, s as int, e as int, is_hex)->Some_0,
    {
        if is_hex {
            return Err("Hex notation not supported for floating point".to_string());
        }
        let lit = self.literal(s, e);
        let mut out: Vec<u8> = Vec::new();
        let mut i: usize = 0;
        while i < lit.len()
            invariant
                i <= lit@.len(),
                out@ == strip_commas(lit@.take(i as int)),
            decreases lit@.len() - i,
        {
            assert(lit@.take(i + 1).drop_last() =~= lit@.take(i as int));
            if lit[i] != 44 {
                out.push(lit[i]);
            }
            i = i + 1;
        }
        assert(lit@.take(lit@.len() as int) =~= lit@);
        Ok(out)
    }

    fn int_literal(&self, s: usize, e: usize, is_hex: bool) -> (r: Result<i128, String>)
        requires
            s <= e <= self.text@.len(),
        ensures
            r is Ok <==> int_lit(self.text@, s as int, e as int, is_hex) is Some,
            r matches Ok(v) ==> v as int == int_lit(self.text@, s as int, e as int, is_hex)->Some_0,
    {
        let lit = self.literal(s, e);
        parse_digits(lit.as_slice(), is_hex)
    }

    fn create_fixed_value(&self, n: (usize, usize, bool), value_type: ValueType) -> (r: Result<SearchValue, String>)
        requires
            n.0 <= n.1 <= self.text@.len(),
        ensures
            r is Ok <==> fixed_spec(self.text@, n, value_type) is Some,
            r matches Ok(v) ==> value_view(v) == fixed_spec(self.text@, n, value_type)->Some_0,
    {
        if value_type.is_float_type() {
            let literal = self.float_literal(n.0, n.1, n.2)?;
            Ok(SearchValue::FixedFloat { literal, value_type })
        } else {
            let value = self.int_literal(n.0, n.1, n.2)?;
            if value > 9223372036854775807i128 {
                return Err("Value exceeds maximum for fixed search".to_string());
            }
            if value < -9223372036854775808i128 {
                return Err("Value is below minimum for fixed search".to_string());
            }
            Ok(SearchValue::fixed(value, value_type))
        }
    }

    fn create_range_value(
        &self,
        start: (usize, usize, bool),
        end: (usize, usize, bool),
        value_type: ValueType,
        exclude: bool,
    ) -> (r: Result<SearchValue, String>)
        requires
            start.0 <= start.1 <= self.text@.len(),
            end.0 <= end.1 <= self.text@.len(),
        ensures
            r is Ok <==> range_spec(self.text@, start, end, value_type, exclude) is Some,
            r matches Ok(v) ==> value_view(v) == range_spec(self.text@, start, end, value_type, exclude)->Some_0,
    {
        if value_type.is_float_type() {
            let low_literal = self.float_literal(start.0, start.1, start.2)?;
            let high_literal = self.float_literal(end.0, end.1, end.2)?;
            Ok(SearchValue::RangeFloat { low_literal, high_literal, value_type, exclude })
        } else {
            let lo = self.int_literal(start.0, start.1, start.2)?;
            let hi = self.int_literal(end.0, end.1, end.2)?;
            if lo > 9223372036854775807i128 || hi > 9223372036854775807i128 {
                return Err("Range values exceed maximum for integer range search".to_string());
            }
            if lo < -9223372036854775808i128 || hi < -9223372036854775808i128 {
                return Err("Range values are below minimum for integer range search".to_string());
            }
            if lo > hi {
                return Err("Range start must be <= end".to_string());
            }
            Ok(SearchValue::range(lo, hi, value_type, exclude))
        }
    }

    fn parse_range(&mut self, start: (usize, usize, bool), exclude: bool) -> (r: Result<SearchValue, String>)
        requires
            old(self).wf(),
            start.0 <= start.1 <= old(self).text@.len(),
        ensures
            final(self).wf(),
            final(self).tokens@ == old(self).tokens@,
            final(self).text@ == old(self).text@,
            final(self).default_type == old(self).default_type,
            r is Ok <==> range_tail(old(self).text@, old(self).tokens@, old(self).pos as int, start, old(self).default_type, exclude) is Some,
            r matches Ok(v) ==> (value_view(v), final(self).pos as int) == range_tail(old(self).text@, old(self).tokens@, old(self).pos as int, start, old(self).default_type, exclude)->Some_0,
    {
        let end = match self.advance() {
            Some(Token::Number(s, e, h)) => (s, e, h),
            _ => return Err("Expected number after range operator".to_string()),
        };
        let value_type = match self.peek() {
            Some(Token::Type(vt)) => {
                self.advance();
                vt
            },
            _ => self.default_type,
        };
        self.create_range_value(start, end, value_type, exclude)
    }

    fn parse_range_with_type(&mut self, start: (usize, usize, bool), value_type: ValueType, exclude: bool) -> (r: Result<SearchValue, String>)
        requires
            old(self).wf(),
            start.0 <= start.1 <= old(self).text@.len(),
        ensures
            final(self).wf(),
            final(self).tokens@ == old(self).tokens@,
            final(self).text@ == old(self).text@,
            final(self).default_type == old(self).default_type,
            r is Ok <==> typed_range_tail(old(self).text@, old(self).tokens@, old(self).pos as int, start, value_type, exclude) is Some,
            r matches Ok(v) ==> (value_view(v), final(self).pos as int) == typed_range_tail(old(self).text@, old(self).tokens@, old(self).pos as int, start, value_type, exclude)->Some_0,
    {
        let end = match self.advance() {
            Some(Token::Number(s, e, h)) => (s, e, h),
            _ => return Err("Expected number after range operator".to_string()),
        };
        if let Some(Token::Type(end_type)) = self.peek() {
            if end_type != value_type {
                return Err("Range type mismatch".to_string());
            }
            self.advance();
        }
        self.create_range_value(start, end, value_type, exclude)
    }

    fn parse_value(&mut self) -> (r: Result<SearchValue, String>)
        requires
            old(self).wf(),
        ensures
            final(self).wf(),
            final(self).tokens@ == old(self).tokens@,
            final(self).text@ == old(self).text@,
            final(self).default_type == old(self).default_type,
            r is Ok <==> value_spec(old(self).text@, old(self).tokens@, old(self).pos as int, old(self).default_type) is Some,
            r matches Ok(v) ==> (value_view(v), final(self).pos as int) == value_spec(old(self).text@, old(self).tokens@, old(self).pos as int, old(self).default_type)->Some_0,
    {
        let num = match self.advance() {
            Some(Token::Number(s, e, h)) => (s, e, h),
            _ => return Err("Expected number".to_string()),
        };
        match self.peek() {
            Some(Token::Tilde) => {
                self.advance();
                self.parse_range(num, false)
            },
            Some(Token::DoubleTilde) => {
                self.advance();
                self.parse_range(num, true)
            },
            Some(Token::Type(value_type)) => {
                self.advance();
                match self.peek() {
                    Some(Token::Tilde) => {
                        self.advance();
                        self.parse_range_with_type(num, value_type, false)
                    },
                    Some(Token::DoubleTilde) => {
                        self.advance();
                        self.parse_range_with_type(num, value_type, true)
                    },
                    _ => self.create_fixed_value(num, value_type),
                }
            },
            _ => self.create_fixed_value(num, self.default_type),
        }
    }

    fn parse_values(&mut self) -> (r: Result<Vec<SearchValue>, String>)
        requires
            old(self).wf(),
        ensures
            final(self).wf(),
            final(self).tokens@ == old(self).tokens@,
            final(self).text@ == old(self).text@,
            final(self).default_type == old(self).default_type,
            r is Ok <==> values_spec(old(self).text@, old(self).tokens@, old(self).pos as int, old(self).default_type) is Some,
            r matches Ok(vs) ==> (vs@.map_values(|v: SearchValue| value_view(v)), final(self).pos as int) == values_spec(old(self).text@, old(self).tokens@, old(self).pos as int, old(self).default_type)->Some_0,
        decreases old(self).tokens@.len() - old(self).pos,
    {
        let start = self.pos;
        let first = self.parse_value()?;
        if self.pos > start && self.peek() == Some(Token::Semicolon) {
            self.advance();
            let rest = self.parse_values()?;
            let ghost rest_view = rest@.map_values(|v: SearchValue| value_view(v));
            let mut values: Vec<SearchValue> = Vec::new();
            values.push(first);
            let mut rest = rest;
            values.append(&mut rest);
            assert(values@.map_values(|v: SearchValue| value_view(v)) =~= seq![value_view(values@[0])] + rest_view);
            Ok(values)
        } else {
            let mut values: Vec<SearchValue> = Vec::new();
            values.push(first);
            assert(values@.map_values(|v: SearchValue| value_view(v)) =~= seq![value_view(values@[0])]);
            Ok(values)
        }
    }

    fn parse_range_size(&mut self) -> (r: Result<u16, String>)
        requires
            old(self).wf(),
        ensures
            final(self).wf(),
            final(self).tokens@ == old(self).tokens@,
            final(self).text@ == old(self).text@,
            r is Ok <==> size_spec(old(self).text@, old(self).tokens@, old(self).pos as int) is Some,
            r matches Ok(n) ==> (n, final(self).pos as int) == size_spec(old(self).text@, old(self).tokens@, old(self).pos as int)->Some_0,
    {
        match self.advance() {
            Some(Token::Number(s, e, h)) => {
                let size = self.int_literal(s, e, h)?;
                if size < 2 || size > 65536 {
                    return Err("Range size must be between 2 and 65536".to_string());
                }
                if size == 65536 {
                    // a window of 65536 wraps to 0 in 16 bits
                    Ok(0)
                } else {
                    Ok(size as u16)
                }
            },
            Some(_) => Err("Expected number for range size".to_string()),
            None => Ok(512),
        }
    }

    fn parse_range_specifier(&mut self) -> (r: Result<(SearchMode, u16), String>)
        requires
            old(self).wf(),
        ensures
            final(self).wf(),
            final(self).tokens@ == old(self).tokens@,
            final(self).text@ == old(self).text@,
            r is Ok <==> specifier_spec(old(self).text@, old(self).tokens@, old(self).pos as int) is Some,
            r matches Ok((m, n)) ==> (m, n, final(self).pos as int) == specifier_spec(old(self).text@, old(self).tokens@, old(self).pos as int)->Some_0,
    {
        match self.peek() {
            Some(Token::Colon) => {
                self.advance();
                let range = self.parse_range_size()?;
                Ok((SearchMode::Unordered, range))
            },
            Some(Token::DoubleColon) => {
                self.advance();
                let range = self.parse_range_size()?;
                Ok((SearchMode::Ordered, range))
            },
            None => Ok((SearchMode::Unordered, 512)),
            Some(_) => Err("Expected colon or end of input".to_string()),
        }
    }

    /// Parses the whole token list into a validated query.
    pub fn parse(&mut self) -> (r: Result<SearchQuery, String>)
        requires
            old(self).wf(),
            old(self).position() == 0,
        ensures
            r is Ok <==> query_spec(old(self).text_spec(), old(self).token_seq(), old(self).default_spec()) is Some,
            r matches Ok(q) ==> (q.values@.map_values(|v: SearchValue| value_view(v)), q.mode, q.range) == query_spec(old(self).text_spec(), old(self).token_seq(), old(self).default_spec())->Some_0,
    {
        let values = self.parse_values()?;
        let (mode, range) = self.parse_range_specifier()?;
        if self.pos < self.tokens.len() {
            return Err("Unexpected tokens after query".to_string());
        }
        let query = SearchQuery::new(values, mode, range);
        query.validate()?;
        Ok(query)
    }
}

pub open spec fn same_kind(a: Token, b: Token) -> bool {
    match (a, b) {
        (Token::Number(..), Token::Number(..)) => true,
        (Token::Type(_), Token::Type(_)) => true,
        (Token::Semicolon, Token::Semicolon) => true,
        (Token::Colon, Token::Colon) => true,
        (Token::DoubleColon, Token::DoubleColon) => true,
        (Token::Tilde, Token::Tilde) => true,
        (Token::DoubleTilde, Token::DoubleTilde) => true,
        _ => false,
    }
}

fn kind_matches(a: Token, b: Token) -> (r: bool)
    ensures
        r == same_kind(a, b),
{
    match (a, b) {
        (Token::Number(..), Token::Number(..)) => true,
        (Token::Type(_), Token::Type(_)) => true,
        (Token::Semicolon, Token::Semicolon) => true,
        (Token::Colon, Token::Colon) => true,
        (Token::DoubleColon, Token::DoubleColon) => true,
        (Token::Tilde, Token::Tilde) => true,
        (Token::DoubleTilde, Token::DoubleTilde) => true,
        _ => false,
    }
}

/// Parses a query text; values without a type suffix take `default_type`.
pub fn parse_search_query(input: &str, default_type: ValueType) -> (r: Result<SearchQuery, String>)
    ensures
        r is Ok <==> parse_spec(input.spec_bytes(), default_type) is Some,
        r matches Ok(q) ==> (q.values@.map_values(|v: SearchValue| value_view(v)), q.mode, q.range) == parse_spec(input.spec_bytes(), default_type)->Some_0,
{
    let mut parser = Parser::new(input, default_type)?;
    parser.parse()
}

} // verus!
