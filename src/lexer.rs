use vstd::prelude::*;
use crate::types::ValueType;
use vstd::string::StringSliceAdditionalSpecFns;

verus! {

/// A token of the query language.  A number token records the byte span
/// `[start, end)` of its literal in the input and whether it carries the
/// hexadecimal suffix.
#[derive(Debug, Clone, Copy, PartialEq, Eq, Structural)]
pub enum Token {
    Number(usize, usize, bool),
    Type(ValueType),
    Semicolon,
    Colon,
    DoubleColon,
    Tilde,
    DoubleTilde,
}

pub open spec fn is_space(c: u8) -> bool {
    c == 32 || c == 9 || c == 10 || c == 12 || c == 13
}

pub open spec fn is_digit(c: u8) -> bool {
    48 <= c <= 57
}

/// `A`-`F` or `a`-`f`.
pub open spec fn is_hex_letter(c: u8) -> bool {
    (65 <= c <= 70) || (97 <= c <= 102)
}

pub open spec fn is_letter(c: u8) -> bool {
    (65 <= c <= 90) || (97 <= c <= 122)
}

pub open spec fn is_h(c: u8) -> bool {
    c == 104 || c == 72
}

/// First position at or after `p` that is not white space.
pub open spec fn skip_space(b: Seq<u8>, p: int) -> int
    decreases b.len() - p,
{
    if p < 0 || p >= b.len() || !is_space(b[p]) {
        p
    } else {
        skip_space(b, p + 1)
    }
}

/// From `p` on, hexadecimal digits and commas run up to an `h`/`H`.
pub open spec fn hex_suffix_from(b: Seq<u8>, p: int) -> bool {
    exists|k: int|
        #![trigger b[k]]
        0 <= p <= k < b.len() && is_h(b[k]) && forall|j: int|
            #![trigger b[j]]
            p <= j < k ==> is_digit(b[j]) || is_hex_letter(b[j]) || b[j] == 44
}

/// The end of the numeric literal that starts at `p`, and whether it took
/// the hexadecimal suffix; `None` when a hexadecimal suffix follows a
/// fractional part.
pub open spec fn scan_number(b: Seq<u8>, p: int, frac: bool) -> Option<(int, bool)>
    decreases b.len() - p,
{
    if p < 0 || p >= b.len() {
        Some((p, false))
    } else {
        let c = b[p];
        if is_digit(c) || c == 44 {
            scan_number(b, p + 1, frac)
        } else if c == 46 {
            if !frac && p + 1 < b.len() && is_digit(b[p + 1]) {
                scan_number(b, p + 1, true)
            } else {
                Some((p, false))
            }
        } else if is_hex_letter(c) {
            if hex_suffix_from(b, p) {
                scan_number(b, p + 1, frac)
            } else {
                Some((p, false))
            }
        } else if is_h(c) {
            if frac {
                None
            } else {
                Some((p + 1, true))
            }
        } else {
            Some((p, false))
        }
    }
}

/// Outcome of reading one token.
pub enum Step {
    End,
    Tok(Token, int),
    Fail,
}

/// The token that starts after the white space at `pos`, with the position after it.
pub open spec fn lex_step(b: Seq<u8>, pos: int) -> Step {
    let p = skip_space(b, pos);
    if p < 0 || p >= b.len() {
        Step::End
    } else {
        let c = b[p];
        if c == 59 {
            Step::Tok(Token::Semicolon, p + 1)
        } else if c == 58 {
            if p + 1 < b.len() && b[p + 1] == 58 {
                Step::Tok(Token::DoubleColon, p + 2)
            } else {
                Step::Tok(Token::Colon, p + 1)
            }
        } else if c == 126 {
            if p + 1 < b.len() && b[p + 1] == 126 {
                Step::Tok(Token::DoubleTilde, p + 2)
            } else {
                Step::Tok(Token::Tilde, p + 1)
            }
        } else if is_digit(c) {
            match scan_number(b, p, false) {
                Some((e, h)) => if e > p {
                    Step::Tok(Token::Number(p as usize, e as usize, h), e)
                } else {
                    Step::Fail
                },
                None => Step::Fail,
            }
        } else if is_letter(c) {
            match scan_number(b, p, false) {
                Some((e, h)) if e > p => Step::Tok(Token::Number(p as usize, e as usize, h), e),
                _ => match ValueType::char_spec(c as char) {
                    Some(t) => Step::Tok(Token::Type(t), p + 1),
                    None => Step::Fail,
                },
            }
        } else {
            Step::Fail
        }
    }
}

/// The tokens of `b[pos..]`, or `None` when it holds a lexical error.
pub open spec fn lex_from(b: Seq<u8>, pos: int) -> Option<Seq<Token>>
    decreases b.len() - pos,
{
    match lex_step(b, pos) {
        Step::End => Some(Seq::empty()),
        Step::Fail => None,
        Step::Tok(t, e) => if pos < e <= b.len() {
            match lex_from(b, e) {
                Some(rest) => Some(seq![t] + rest),
                None => None,
            }
        } else {
            None
        },
    }
}

pub proof fn lemma_skip_space_bounds(b: Seq<u8>, p: int)
    requires
        0 <= p <= b.len(),
    ensures
        p <= skip_space(b, p) <= b.len(),
        forall|j: int| p <= j < skip_space(b, p) ==> is_space(#[trigger] b[j]),
    decreases b.len() - p,
{
    if p < b.len() && is_space(b[p]) {
        lemma_skip_space_bounds(b, p + 1);
    }
}

pub proof fn lemma_scan_number_bounds(b: Seq<u8>, p: int, frac: bool)
    requires
        0 <= p <= b.len(),
    ensures
        scan_number(b, p, frac) matches Some((e, _)) ==> p <= e <= b.len(),
    decreases b.len() - p,
{
    if p < b.len() {
        let c = b[p];
        if is_digit(c) || c == 44 {
            lemma_scan_number_bounds(b, p + 1, frac);
        } else if c == 46 {
            if !frac && p + 1 < b.len() && is_digit(b[p + 1]) {
                lemma_scan_number_bounds(b, p + 1, true);
            }
        } else if is_hex_letter(c) {
            if hex_suffix_from(b, p) {
                lemma_scan_number_bounds(b, p + 1, frac);
            }
        }
    }
}

/// Splits a query text into tokens.
pub struct Lexer {
    bytes: Vec<u8>,
    pos: usize,
}

impl Lexer {
    pub closed spec fn text(&self) -> Seq<u8> {
        self.bytes@
    }

    pub closed spec fn position(&self) -> int {
        self.pos as int
    }

    pub open spec fn wf(&self) -> bool {
        0 <= self.position() <= self.text().len()
    }

    pub fn new(input: &str) -> (r: Self)
        ensures
            r.text() == input.spec_bytes(),
            r.position() == 0,
            r.wf(),
    {
        let src = input.as_bytes();
        let mut bytes: Vec<u8> = Vec::new();
        let mut i: usize = 0;
        while i < src.len()
            invariant
                i <= src@.len(),
                bytes@ == src@.take(i as int),
            decreases src@.len() - i,
        {
            bytes.push(src[i]);
            i = i + 1;
            assert(bytes@ =~= src@.take(i as int));
        }
        assert(src@.take(src@.len() as int) =~= src@);
        Lexer { bytes, pos: 0 }
    }

    /// The input bytes.
    pub fn input(&self) -> (r: &Vec<u8>)
        ensures
            r@ == self.text(),
    {
        &self.bytes
    }

    /// Gives up the lexer, returning its input bytes.
    pub fn into_text(self) -> (r: Vec<u8>)
        ensures
            r@ == self.text(),
    {
        self.bytes
    }

    fn peek(&self) -> (r: Option<u8>)
        ensures
            r == (if self.pos < self.bytes@.len() {
                Some(self.bytes@[self.pos as int])
            } else {
                None::<u8>
            }),
    {
        if self.pos < self.bytes.len() {
            Some(self.bytes[self.pos])
        } else {
            None
        }
    }

    fn peek_at(&self, offset: usize) -> (r: Option<u8>)
        requires
            self.pos + offset <= usize::MAX,
        ensures
            r == (if self.pos + offset < self.bytes@.len() {
                Some(self.bytes@[self.pos + offset])
            } else {
                None::<u8>
            }),
    {
        let pos = self.pos + offset;
        if pos < self.bytes.len() {
            Some(self.bytes[pos])
        } else {
            None
        }
    }

    fn advance(&mut self) -> (r: Option<u8>)
        ensures
            final(self).bytes@ == old(self).bytes@,
            old(self).pos < old(self).bytes@.len() ==> final(self).pos == old(self).pos + 1 && r
                == Some(old(self).bytes@[old(self).pos as int]),
            old(self).pos >= old(self).bytes@.len() ==> final(self).pos == old(self).pos && r
                is None,
    {
        if self.pos < self.bytes.len() {
            let ch = self.bytes[self.pos];
            self.pos = self.pos + 1;
            Some(ch)
        } else {
            None
        }
    }

    fn skip_whitespace(&mut self)
        requires
            old(self).pos <= old(self).bytes@.len(),
        ensures
            final(self).bytes@ == old(self).bytes@,
            final(self).pos == skip_space(old(self).bytes@, old(self).pos as int),
    {
        while self.pos < self.bytes.len() && is_space_byte(self.bytes[self.pos])
            invariant
                self.pos <= self.bytes@.len(),
                self.bytes@ == old(self).bytes@,
                skip_space(self.bytes@, self.pos as int) == skip_space(
                    old(self).bytes@,
                    old(self).pos as int,
                ),
            decreases self.bytes@.len() - self.pos,
        {
            self.pos = self.pos + 1;
        }
    }

    fn has_hex_suffix(&self, from_pos: usize) -> (r: bool)
        requires
            from_pos <= self.bytes@.len(),
        ensures
            r == hex_suffix_from(self.bytes@, from_pos as int),
    {
        let ghost b = self.bytes@;
        let mut pos = from_pos;
        while pos < self.bytes.len()
            invariant
                from_pos <= pos <= b.len(),
                b == self.bytes@,
                forall|j: int|
                    #![trigger b[j]]
                    from_pos <= j < pos ==> is_digit(b[j]) || is_hex_letter(b[j]) || b[j] == 44,
            decreases b.len() - pos,
        {
            let c = self.bytes[pos];
            if is_digit_byte(c) || is_hex_letter_byte(c) || c == 44 {
                pos = pos + 1;
            } else if c == 104 || c == 72 {
                assert(is_h(b[pos as int]));
                return true;
            } else {
                assert forall|k: int|
                    #![trigger b[k]]
                    0 <= from_pos <= k < b.len() && is_h(b[k]) implies exists|j: int|
                    #![trigger b[j]]
                    from_pos <= j < k && !(is_digit(b[j]) || is_hex_letter(b[j]) || b[j]
                        == 44) by {
                    if k < pos {
                        assert(false);
                    } else if k > pos {
                        assert(b[pos as int] == c);
                    } else {
                        assert(false);
                    }
                }
                return false;
            }
        }
        assert forall|k: int|
            #![trigger b[k]]
            0 <= from_pos <= k < b.len() && is_h(b[k]) implies false by {
            assert(is_digit(b[k]) || is_hex_letter(b[k]) || b[k] == 44);
        }
        false
    }

    fn read_number(&mut self) -> (r: Result<Token, String>)
        requires
            old(self).pos <= old(self).bytes@.len(),
        ensures
            final(self).bytes@ == old(self).bytes@,
            final(self).pos <= final(self).bytes@.len(),
            ({
                let b = old(self).bytes@;
                let p = old(self).pos as int;
                match scan_number(b, p, false) {
                    None => r is Err,
                    Some((e, h)) => if e > p {
                        r == Ok::<Token, String>(Token::Number(p as usize, e as usize, h))
                            && final(self).pos == e
                    } else {
                        r is Err
                    },
                }
            }),
    {
        let ghost b = self.bytes@;
        let start = self.pos;
        let mut frac = false;
        let mut is_hex = false;
        let mut bad = false;
        proof {
            lemma_scan_number_bounds(b, start as int, false);
        }
        while self.pos < self.bytes.len()
            invariant_except_break
                !is_hex,
                !bad,
                scan_number(b, start as int, false) == scan_number(b, self.pos as int, frac),
            invariant
                self.bytes@ == b,
                start <= self.pos <= b.len(),
                frac ==> self.pos > start,
            ensures
                bad ==> scan_number(b, start as int, false) is None,
                !bad ==> scan_number(b, start as int, false) == Some((self.pos as int, is_hex)),
            decreases b.len() - self.pos,
        {
            let c = self.bytes[self.pos];
            if is_digit_byte(c) || c == 44 {
                self.pos = self.pos + 1;
            } else if c == 46 {
                if frac {
                    break;
                }
                let next_digit = match self.peek_at(1) {
                    Some(d) => is_digit_byte(d),
                    None => false,
                };
                if next_digit {
                    frac = true;
                    self.pos = self.pos + 1;
                } else {
                    break;
                }
            } else if is_hex_letter_byte(c) {
                if self.has_hex_suffix(self.pos) {
                    self.pos = self.pos + 1;
                } else {
                    break;
                }
            } else if c == 104 || c == 72 {
                if frac {
                    bad = true;
                    break;
                }
                self.pos = self.pos + 1;
                is_hex = true;
                break;
            } else {
                break;
            }
        }
        if bad {
            return Err("Hex suffix not allowed for floating point numbers".to_string());
        }
        if start == self.pos {
            return Err("Expected number".to_string());
        }
        Ok(Token::Number(start, self.pos, is_hex))
    }

    /// Reads the next token; `Ok(None)` at the end of the input.
    pub fn next_token(&mut self) -> (r: Result<Option<Token>, String>)
        requires
            old(self).wf(),
        ensures
            final(self).wf(),
            final(self).text() == old(self).text(),
            match lex_step(old(self).text(), old(self).position()) {
                Step::End => r == Ok::<Option<Token>, String>(None),
                Step::Fail => r is Err,
                Step::Tok(t, e) => r == Ok::<Option<Token>, String>(Some(t))
                    && final(self).position() == e,
            },
    {
        let ghost b = self.bytes@;
        proof {
            lemma_skip_space_bounds(b, self.pos as int);
        }
        self.skip_whitespace();
        let p = self.pos;
        match self.peek() {
            None => Ok(None),
            Some(ch) => {
                if ch == 59 {
                    self.advance();
                    Ok(Some(Token::Semicolon))
                } else if ch == 58 {
                    self.advance();
                    if self.peek() == Some(58u8) {
                        self.advance();
                        Ok(Some(Token::DoubleColon))
                    } else {
                        Ok(Some(Token::Colon))
                    }
                } else if ch == 126 {
                    self.advance();
                    if self.peek() == Some(126u8) {
                        self.advance();
                        Ok(Some(Token::DoubleTilde))
                    } else {
                        Ok(Some(Token::Tilde))
                    }
                } else if is_digit_byte(ch) {
                    match self.read_number() {
                        Ok(t) => Ok(Some(t)),
                        Err(e) => Err(e),
                    }
                } else if is_letter_byte(ch) {
                    let result = self.read_number();
                    match result {
                        Ok(t) => Ok(Some(t)),
                        Err(_) => {
                            self.pos = p;
                            match ValueType::from_char(ch as char) {
                                Some(value_type) => {
                                    self.advance();
                                    Ok(Some(Token::Type(value_type)))
                                },
                                None => Err("Invalid character".to_string()),
                            }
                        },
                    }
                } else {
                    Err("Unexpected character".to_string())
                }
            },
        }
    }

    /// Reads all remaining tokens.
    pub fn tokenize(&mut self) -> (r: Result<Vec<Token>, String>)
        requires
            old(self).wf(),
        ensures
            final(self).text() == old(self).text(),
            lex_from(old(self).text(), old(self).position()) is None ==> r is Err,
            lex_from(old(self).text(), old(self).position()) is Some ==> r is Ok && r.unwrap()@
                == lex_from(old(self).text(), old(self).position()).unwrap(),
    {
        let ghost b = self.bytes@;
        let ghost start_pos = self.pos as int;
        let mut tokens: Vec<Token> = Vec::new();
        loop
            invariant
                self.wf(),
                self.text() == b,
                b == old(self).text(),
                start_pos == old(self).position(),
                match lex_from(b, self.position()) {
                    Some(rest) => lex_from(b, start_pos) == Some(tokens@ + rest),
                    None => lex_from(b, start_pos) is None,
                },
            decreases b.len() - self.position(),
        {
            let ghost before = self.position();
            let step = self.next_token();
            match step {
                Err(e) => {
                    assert(lex_step(b, before) is Fail);
                    assert(lex_from(b, before) is None);
                    return Err(e);
                },
                Ok(None) => {
                    assert(lex_step(b, before) is End);
                    assert(lex_from(b, before) == Some(Seq::<Token>::empty()));
                    assert(tokens@ + Seq::<Token>::empty() =~= tokens@);
                    return Ok(tokens);
                },
                Ok(Some(t)) => {
                    proof {
                        lemma_step_advances(b, before);
                    }
                    let ghost old_tokens = tokens@;
                    tokens.push(t);
                    proof {
                        match lex_from(b, self.position()) {
                            Some(rest) => {
                                assert(old_tokens + (seq![t] + rest) =~= tokens@ + rest);
                            },
                            None => {},
                        }
                    }
                },
            }
        }
    }
}

/// A token read at `pos` ends strictly after it and within the input.
pub proof fn lemma_step_advances(b: Seq<u8>, pos: int)
    requires
        0 <= pos <= b.len(),
    ensures
        lex_step(b, pos) matches Step::Tok(_, e) ==> pos < e <= b.len(),
{
    lemma_skip_space_bounds(b, pos);
    let p = skip_space(b, pos);
    if 0 <= p < b.len() {
        lemma_scan_number_bounds(b, p, false);
    }
}

fn is_space_byte(c: u8) -> (r: bool)
    ensures
        r == is_space(c),
{
    c == 32 || c == 9 || c == 10 || c == 12 || c == 13
}

fn is_digit_byte(c: u8) -> (r: bool)
    ensures
        r == is_digit(c),
{
    48 <= c && c <= 57
}

fn is_hex_letter_byte(c: u8) -> (r: bool)
    ensures
        r == is_hex_letter(c),
{
    (65 <= c && c <= 70) || (97 <= c && c <= 102)
}

fn is_letter_byte(c: u8) -> (r: bool)
    ensures
        r == is_letter(c),
{
    (65 <= c && c <= 90) || (97 <= c && c <= 122)
}

} // verus!

verus! {

/// `s` with its grouping commas removed.
pub open spec fn strip_commas(s: Seq<u8>) -> Seq<u8>
    decreases s.len(),
{
    if s.len() == 0 {
        s
    } else if s.last() == 44 {
        strip_commas(s.drop_last())
    } else {
        strip_commas(s.drop_last()).push(s.last())
    }
}

/// The digits of a numeric literal: commas removed, then one trailing
/// `h`/`H` removed.
pub open spec fn literal_digits(s: Seq<u8>) -> Seq<u8> {
    let c = strip_commas(s);
    if c.len() > 0 && is_h(c.last()) {
        c.drop_last()
    } else {
        c
    }
}

pub open spec fn radix_of(hex: bool) -> nat {
    if hex {
        16
    } else {
        10
    }
}

pub open spec fn is_radix_digit(c: u8, hex: bool) -> bool {
    is_digit(c) || (hex && is_hex_letter(c))
}

pub open spec fn digit_value(c: u8) -> nat {
    if is_digit(c) {
        (c - 48) as nat
    } else if 65 <= c <= 70 {
        (c - 55) as nat
    } else {
        (c - 87) as nat
    }
}

/// The value of a digit string in the given radix.
pub open spec fn digits_value(ds: Seq<u8>, hex: bool) -> nat
    decreases ds.len(),
{
    if ds.len() == 0 {
        0
    } else {
        digits_value(ds.drop_last(), hex) * radix_of(hex) + digit_value(ds.last())
    }
}

/// A literal denotes a number: it has digits, all valid in its radix.
pub open spec fn well_formed_digits(ds: Seq<u8>, hex: bool) -> bool {
    ds.len() > 0 && forall|i: int| 0 <= i < ds.len() ==> is_radix_digit(#[trigger] ds[i], hex)
}

pub open spec fn i128_max() -> nat {
    170141183460469231731687303715884105727
}

fn digit_of(c: u8, hex: bool) -> (r: Option<u8>)
    ensures
        r is Some <==> is_radix_digit(c, hex),
        r matches Some(d) ==> d as nat == digit_value(c) && (d as nat) < radix_of(hex),
{
    if 48 <= c && c <= 57 {
        Some(c - 48)
    } else if hex && 65 <= c && c <= 70 {
        Some(c - 55)
    } else if hex && 97 <= c && c <= 102 {
        Some(c - 87)
    } else {
        None
    }
}

/// Parses an integer literal: grouping commas are dropped, a trailing
/// `h`/`H` is dropped, and the rest is read in base 16 when `is_hex`, else
/// base 10.  Fails when no digit is left, a character is not a digit of the
/// base, or the value exceeds `i128::MAX`.
pub fn parse_number(s: &str, is_hex: bool) -> (r: Result<i128, String>)
    ensures
        ({
            let ds = literal_digits(s.spec_bytes());
            &&& r is Ok <==> well_formed_digits(ds, is_hex) && digits_value(ds, is_hex) <= i128_max()
            &&& r matches Ok(v) ==> v as int == digits_value(ds, is_hex)
        }),
{
    parse_digits(s.as_bytes(), is_hex)
}

/// `parse_number` on the bytes of a literal.
pub fn parse_digits(src: &[u8], is_hex: bool) -> (r: Result<i128, String>)
    ensures
        ({
            let ds = literal_digits(src@);
            &&& r is Ok <==> well_formed_digits(ds, is_hex) && digits_value(ds, is_hex) <= i128_max()
            &&& r matches Ok(v) ==> v as int == digits_value(ds, is_hex)
        }),
{
    let mut cleaned: Vec<u8> = Vec::new();
    let mut i: usize = 0;
    while i < src.len()
        invariant
            i <= src@.len(),
            cleaned@ == strip_commas(src@.take(i as int)),
        decreases src@.len() - i,
    {
        assert(src@.take(i + 1).drop_last() =~= src@.take(i as int));
        if src[i] != 44 {
            cleaned.push(src[i]);
        }
        i = i + 1;
    }
    assert(src@.take(src@.len() as int) =~= src@);
    let mut n = cleaned.len();
    if n > 0 && (cleaned[n - 1] == 104 || cleaned[n - 1] == 72) {
        n = n - 1;
    }
    let ghost ds = literal_digits(src@);
    assert(ds =~= cleaned@.take(n as int));
    if n == 0 {
        return Err("Invalid number".to_string());
    }
    let radix: u128 = if is_hex {
        16
    } else {
        10
    };
    let max: u128 = 170141183460469231731687303715884105727;
    let mut acc: u128 = 0;
    let mut over = false;
    let mut k: usize = 0;
    while k < n
        invariant
            k <= n <= cleaned@.len(),
            ds == cleaned@.take(n as int),
            ds == literal_digits(src@),
            radix as nat == radix_of(is_hex),
            max as nat == i128_max(),
            forall|j: int| 0 <= j < k ==> is_radix_digit(#[trigger] ds[j], is_hex),
            !over ==> acc as nat == digits_value(ds.take(k as int), is_hex) && acc <= max,
            over ==> digits_value(ds.take(k as int), is_hex) > i128_max(),
        decreases n - k,
    {
        let c = cleaned[k];
        let d = match digit_of(c, is_hex) {
            Some(d) => d,
            None => {
                assert(k < ds.len());
                assert(!is_radix_digit(ds[k as int], is_hex));
                assert(!well_formed_digits(ds, is_hex));
                return Err("Invalid number".to_string());
            },
        };
        let ghost prev = digits_value(ds.take(k as int), is_hex);
        assert(ds.take(k + 1).drop_last() =~= ds.take(k as int));
        assert(digits_value(ds.take(k + 1), is_hex) == prev * radix_of(is_hex) + d);
        if over {
            assert(prev * radix_of(is_hex) + d > i128_max()) by (nonlinear_arith)
                requires
                    prev > i128_max(),
                    radix_of(is_hex) >= 10,
            ;
        }
        let lim: u128 = (max - d as u128) / radix;
        if over {
        } else if acc > lim {
            assert(acc * radix + d > max) by (nonlinear_arith)
                requires
                    acc > lim,
                    lim as int == (max as int - d as int) / (radix as int),
                    radix > 0,
                    d <= max,
            ;
            over = true;
        } else {
            assert(acc * radix + d <= max) by (nonlinear_arith)
                requires
                    acc <= lim,
                    lim as int == (max as int - d as int) / (radix as int),
                    radix > 0,
                    d <= max,
            ;
            acc = acc * radix + d as u128;
        }
        k = k + 1;
    }
    assert(ds.take(n as int) =~= ds);
    if over {
        Err("Number out of range".to_string())
    } else {
        Ok(acc as i128)
    }
}

} // verus!
