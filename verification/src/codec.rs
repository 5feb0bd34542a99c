//! Value codec: translates between the textual representation of a value
//! and its byte encoding, for each supported value type.
//!
//! Numeric types parse as base-10 (or `0x`-prefixed base-16) integers of
//! the declared width and encode little-endian, two's complement for the
//! signed ones. `String` copies the UTF-8 bytes of the text verbatim.
//! `Hex` decodes pairs of hex digits, after an optional `0x` prefix.

use vstd::prelude::*;
use vstd::string::StringSliceAdditionalSpecFns;
use vstd::string::StrSliceExecFns;
use vstd::utf8::valid_utf8;
use vstd::utf8::decode_utf8;
use vstd::utf8::encode_utf8;
use vstd::utf8::is_ascii_chars;
use vstd::utf8::is_ascii_chars_encode_utf8;
use vstd::utf8::encode_utf8_valid_utf8;
use vstd::utf8::encode_utf8_decode_utf8;
use vstd::utf8::decode_utf8_encode_utf8;
use crate::CoreError;

verus! {

/// The closed set of value types the engine understands.
#[derive(Clone, Copy, PartialEq, Eq, Debug, Structural)]
pub enum ValueType {
    U32,
    I32,
    U64,
    I64,
    String,
    Hex,
}

pub open spec fn spec_fixed_width(t: ValueType) -> Option<usize> {
    match t {
        ValueType::U32 | ValueType::I32 => Some(4usize),
        ValueType::U64 | ValueType::I64 => Some(8usize),
        ValueType::String | ValueType::Hex => None,
    }
}

impl ValueType {
    /// Byte width of a fixed-width type; `None` for the variable-length ones.
    pub fn fixed_width(&self) -> (r: Option<usize>)
        ensures
            r == spec_fixed_width(*self),
    {
        match self {
            ValueType::U32 | ValueType::I32 => Some(4),
            ValueType::U64 | ValueType::I64 => Some(8),
            ValueType::String | ValueType::Hex => None,
        }
    }
}

// ---------------------------------------------------------------------------
// Digit vocabulary, over the UTF-8 bytes of the text.
// ---------------------------------------------------------------------------

pub open spec fn is_dec_digit(b: u8) -> bool {
    48 <= b <= 57
}

pub open spec fn dec_digit_val(b: u8) -> nat {
    if is_dec_digit(b) {
        (b - 48) as nat
    } else {
        0
    }
}

pub open spec fn all_dec_digits(s: Seq<u8>) -> bool {
    forall|i: int| 0 <= i < s.len() ==> is_dec_digit(#[trigger] s[i])
}

/// Value of a string of decimal digits, most significant first.
pub open spec fn dec_value(s: Seq<u8>) -> nat
    decreases s.len(),
{
    if s.len() == 0 {
        0
    } else {
        dec_value(s.drop_last()) * 10 + dec_digit_val(s.last())
    }
}

pub open spec fn is_hex_digit(b: u8) -> bool {
    is_dec_digit(b) || 97 <= b <= 102 || 65 <= b <= 70
}

pub open spec fn hex_digit_val(b: u8) -> nat {
    if is_dec_digit(b) {
        (b - 48) as nat
    } else if 97 <= b <= 102 {
        (b - 87) as nat
    } else if 65 <= b <= 70 {
        (b - 55) as nat
    } else {
        0
    }
}

pub open spec fn all_hex_digits(s: Seq<u8>) -> bool {
    forall|i: int| 0 <= i < s.len() ==> is_hex_digit(#[trigger] s[i])
}

/// Value of a string of hex digits, most significant first.
pub open spec fn hex_value(s: Seq<u8>) -> nat
    decreases s.len(),
{
    if s.len() == 0 {
        0
    } else {
        hex_value(s.drop_last()) * 16 + hex_digit_val(s.last())
    }
}

// ---------------------------------------------------------------------------
// The shapes a numeric literal may take.
// ---------------------------------------------------------------------------

/// `0x`, marking a base-16 literal.
pub open spec fn has_hex_prefix(s: Seq<u8>) -> bool {
    s.len() >= 2 && s[0] == 48 && s[1] == 120
}

pub open spec fn strip_hex_prefix(s: Seq<u8>) -> Seq<u8> {
    if has_hex_prefix(s) {
        s.skip(2)
    } else {
        s
    }
}

/// A well-formed unsigned magnitude: decimal digits, or `0x` then hex digits.
pub open spec fn magnitude_ok(s: Seq<u8>) -> bool {
    if has_hex_prefix(s) {
        s.len() > 2 && all_hex_digits(s.skip(2))
    } else {
        s.len() > 0 && all_dec_digits(s)
    }
}

pub open spec fn magnitude_value(s: Seq<u8>) -> nat {
    if has_hex_prefix(s) {
        hex_value(s.skip(2))
    } else {
        dec_value(s)
    }
}

pub open spec fn has_minus(s: Seq<u8>) -> bool {
    s.len() >= 1 && s[0] == 45
}

/// A well-formed integer literal: an optional leading `-`, then a magnitude.
pub open spec fn int_text_ok(s: Seq<u8>) -> bool {
    if has_minus(s) {
        magnitude_ok(s.skip(1))
    } else {
        magnitude_ok(s)
    }
}

pub open spec fn int_text_value(s: Seq<u8>) -> int {
    if has_minus(s) {
        -(magnitude_value(s.skip(1)) as int)
    } else {
        magnitude_value(s) as int
    }
}

// ---------------------------------------------------------------------------
// Little-endian byte encodings.
// ---------------------------------------------------------------------------

/// The `w` little-endian bytes of `v`.
pub open spec fn le_bytes_of(v: nat, w: nat) -> Seq<u8>
    decreases w,
{
    if w == 0 {
        Seq::empty()
    } else {
        seq![(v % 256) as u8] + le_bytes_of(v / 256, (w - 1) as nat)
    }
}

/// The value of a little-endian byte string.
pub open spec fn le_value_of(b: Seq<u8>) -> nat
    decreases b.len(),
{
    if b.len() == 0 {
        0
    } else {
        b[0] as nat + 256 * le_value_of(b.drop_first())
    }
}

pub open spec fn pow256(n: nat) -> nat
    decreases n,
{
    if n == 0 {
        1
    } else {
        256 * pow256((n - 1) as nat)
    }
}

/// Two's-complement bit pattern of `v` at modulus `m`, for `-m/2 <= v < m`.
pub open spec fn to_unsigned(v: int, m: nat) -> nat {
    if v >= 0 {
        v as nat
    } else {
        (v + m) as nat
    }
}

/// The signed reading of a `w`-byte bit pattern `u < m`, `m` a power of two.
pub open spec fn from_unsigned(u: nat, m: nat) -> int {
    if u < m / 2 {
        u as int
    } else {
        u - m
    }
}

// ---------------------------------------------------------------------------
// Canonical textual renderings.
// ---------------------------------------------------------------------------

/// Decimal digits of `v`, most significant first, no leading zeros.
pub open spec fn dec_digits_of(v: nat) -> Seq<u8>
    decreases v,
{
    if v < 10 {
        seq![(48 + v) as u8]
    } else {
        dec_digits_of(v / 10).push((48 + v % 10) as u8)
    }
}

pub open spec fn int_text_of(v: int) -> Seq<u8> {
    if v < 0 {
        seq![45u8] + dec_digits_of((-v) as nat)
    } else {
        dec_digits_of(v as nat)
    }
}

/// The lowercase hex digit with value `n < 16`.
pub open spec fn hex_char_of(n: u8) -> u8 {
    if n < 10 {
        (48 + n) as u8
    } else {
        (87 + n) as u8
    }
}

/// Two lowercase hex digits per byte, no separator.
pub open spec fn hex_text_of(b: Seq<u8>) -> Seq<u8> {
    Seq::new(
        2 * b.len(),
        |i: int| if i % 2 == 0 { hex_char_of(b[i / 2] / 16) } else { hex_char_of(b[i / 2] % 16) },
    )
}

/// The bytes denoted by a string of hex digits, one byte per pair.
pub open spec fn hex_pairs(d: Seq<u8>) -> Seq<u8> {
    Seq::new((d.len() / 2) as nat, |i: int| (hex_digit_val(d[2 * i]) * 16 + hex_digit_val(d[2 * i + 1])) as u8)
}

// ---------------------------------------------------------------------------
// The codec, at the specification level.
// ---------------------------------------------------------------------------

pub open spec fn u32_max() -> nat {
    0xffff_ffff
}

pub open spec fn u64_max() -> nat {
    0xffff_ffff_ffff_ffff
}

pub open spec fn mod32() -> nat {
    0x1_0000_0000
}

pub open spec fn mod64() -> nat {
    0x1_0000_0000_0000_0000
}

pub open spec fn in_i32(v: int) -> bool {
    -0x8000_0000 <= v <= 0x7fff_ffff
}

pub open spec fn in_i64(v: int) -> bool {
    -0x8000_0000_0000_0000 <= v <= 0x7fff_ffff_ffff_ffff
}

/// What `encode` yields on the text `s` at type `t`, or `None` where the
/// text is rejected as `InvalidValue`.
pub open spec fn spec_encode(s: Seq<u8>, t: ValueType) -> Option<Seq<u8>> {
    match t {
        ValueType::U32 => if magnitude_ok(s) && magnitude_value(s) <= u32_max() {
            Some(le_bytes_of(magnitude_value(s), 4))
        } else {
            None
        },
        ValueType::U64 => if magnitude_ok(s) && magnitude_value(s) <= u64_max() {
            Some(le_bytes_of(magnitude_value(s), 8))
        } else {
            None
        },
        ValueType::I32 => if int_text_ok(s) && in_i32(int_text_value(s)) {
            Some(le_bytes_of(to_unsigned(int_text_value(s), mod32()), 4))
        } else {
            None
        },
        ValueType::I64 => if int_text_ok(s) && in_i64(int_text_value(s)) {
            Some(le_bytes_of(to_unsigned(int_text_value(s), mod64()), 8))
        } else {
            None
        },
        ValueType::String => Some(s),
        ValueType::Hex => {
            let d = strip_hex_prefix(s);
            if d.len() % 2 == 0 && all_hex_digits(d) {
                Some(hex_pairs(d))
            } else {
                None
            }
        },
    }
}

/// What `decode` yields on the bytes `b` at type `t`: the UTF-8 bytes of
/// the display text, or `None` where the bytes are rejected.
pub open spec fn spec_decode(b: Seq<u8>, t: ValueType) -> Option<Seq<u8>> {
    match t {
        ValueType::U32 => if b.len() == 4 {
            Some(dec_digits_of(le_value_of(b)))
        } else {
            None
        },
        ValueType::U64 => if b.len() == 8 {
            Some(dec_digits_of(le_value_of(b)))
        } else {
            None
        },
        ValueType::I32 => if b.len() == 4 {
            Some(int_text_of(from_unsigned(le_value_of(b), mod32())))
        } else {
            None
        },
        ValueType::I64 => if b.len() == 8 {
            Some(int_text_of(from_unsigned(le_value_of(b), mod64())))
        } else {
            None
        },
        ValueType::String => if valid_utf8(b) {
            Some(b)
        } else {
            None
        },
        ValueType::Hex => Some(hex_text_of(b)),
    }
}

// ---------------------------------------------------------------------------
// Parsing helpers.
// ---------------------------------------------------------------------------

proof fn lemma_dec_value_take_le(s: Seq<u8>, j: int)
    requires
        0 <= j <= s.len(),
    ensures
        all_dec_digits(s) ==> dec_value(s) >= dec_value(s.take(j)),
    decreases s.len() - j,
{
    if j == s.len() {
        assert(s.take(j) =~= s);
    } else {
        assert(s.take(j + 1).drop_last() =~= s.take(j));
        assert(dec_value(s.take(j + 1)) == dec_value(s.take(j)) * 10 + dec_digit_val(s[j]));
        lemma_dec_value_take_le(s, j + 1);
    }
}

pub(crate) proof fn lemma_hex_value_take_le(s: Seq<u8>, j: int)
    requires
        0 <= j <= s.len(),
    ensures
        all_hex_digits(s) ==> hex_value(s) >= hex_value(s.take(j)),
    decreases s.len() - j,
{
    if j == s.len() {
        assert(s.take(j) =~= s);
    } else {
        assert(s.take(j + 1).drop_last() =~= s.take(j));
        assert(hex_value(s.take(j + 1)) == hex_value(s.take(j)) * 16 + hex_digit_val(s[j]));
        lemma_hex_value_take_le(s, j + 1);
    }
}

/// Parses the decimal digits of `s` from position `from` to the end.
fn parse_dec_u64(s: &[u8], from: usize) -> (r: Option<u64>)
    requires
        from <= s@.len(),
    ensures
        ({
            let tail = s@.skip(from as int);
            match r {
                Some(v) => tail.len() > 0 && all_dec_digits(tail) && dec_value(tail) == v,
                None => !(tail.len() > 0 && all_dec_digits(tail) && dec_value(tail) <= u64_max()),
            }
        }),
{
    let ghost tail = s@.skip(from as int);
    if from == s.len() {
        return None;
    }
    let mut acc: u64 = 0;
    let mut i: usize = from;
    while i < s.len()
        invariant
            from <= i <= s@.len(),
            tail == s@.skip(from as int),
            all_dec_digits(tail.take(i - from)),
            acc == dec_value(tail.take(i - from)),
        decreases s@.len() - i,
    {
        let b = s[i];
        if !(48 <= b && b <= 57) {
            assert(tail[i - from] == b);
            return None;
        }
        let d: u64 = (b - 48) as u64;
        assert(tail.take(i - from + 1).drop_last() =~= tail.take(i - from));
        assert(tail.take(i - from + 1).last() == tail[i - from] == b);
        let next = match acc.checked_mul(10) {
            Some(m) => m.checked_add(d),
            None => None,
        };
        match next {
            Some(v) => {
                acc = v;
            },
            None => {
                proof {
                    assert(dec_value(tail.take(i - from + 1)) > u64_max());
                    lemma_dec_value_take_le(tail, i - from + 1);
                }
                return None;
            },
        }
        i = i + 1;
    }
    assert(tail.take(i - from) =~= tail);
    Some(acc)
}

/// Parses the hex digits of `s` from position `from` to the end.
pub(crate) fn parse_hex_u64(s: &[u8], from: usize) -> (r: Option<u64>)
    requires
        from <= s@.len(),
    ensures
        ({
            let tail = s@.skip(from as int);
            match r {
                Some(v) => tail.len() > 0 && all_hex_digits(tail) && hex_value(tail) == v,
                None => !(tail.len() > 0 && all_hex_digits(tail) && hex_value(tail) <= u64_max()),
            }
        }),
{
    let ghost tail = s@.skip(from as int);
    if from == s.len() {
        return None;
    }
    let mut acc: u64 = 0;
    let mut i: usize = from;
    while i < s.len()
        invariant
            from <= i <= s@.len(),
            tail == s@.skip(from as int),
            all_hex_digits(tail.take(i - from)),
            acc == hex_value(tail.take(i - from)),
        decreases s@.len() - i,
    {
        let b = s[i];
        let d: u64 = if 48 <= b && b <= 57 {
            (b - 48) as u64
        } else if 97 <= b && b <= 102 {
            (b - 87) as u64
        } else if 65 <= b && b <= 70 {
            (b - 55) as u64
        } else {
            assert(tail[i - from] == b);
            return None;
        };
        assert(tail.take(i - from + 1).drop_last() =~= tail.take(i - from));
        assert(tail.take(i - from + 1).last() == tail[i - from] == b);
        assert(d == hex_digit_val(b));
        let next = match acc.checked_mul(16) {
            Some(m) => m.checked_add(d),
            None => None,
        };
        match next {
            Some(v) => {
                acc = v;
            },
            None => {
                proof {
                    assert(hex_value(tail.take(i - from + 1)) > u64_max());
                    lemma_hex_value_take_le(tail, i - from + 1);
                }
                return None;
            },
        }
        i = i + 1;
    }
    assert(tail.take(i - from) =~= tail);
    Some(acc)
}

/// Parses an unsigned magnitude from position `from`: decimal digits, or a
/// `0x` prefix then hex digits.
fn parse_magnitude(s: &[u8], from: usize) -> (r: Option<u64>)
    requires
        from <= s@.len(),
    ensures
        ({
            let tail = s@.skip(from as int);
            match r {
                Some(v) => magnitude_ok(tail) && magnitude_value(tail) == v,
                None => !(magnitude_ok(tail) && magnitude_value(tail) <= u64_max()),
            }
        }),
{
    let ghost tail = s@.skip(from as int);
    if s.len() - from >= 2 && s[from] == 48 && s[from + 1] == 120 {
        assert(tail[0] == 48 && tail[1] == 120);
        assert(has_hex_prefix(tail));
        assert(s@.skip(from as int + 2) =~= tail.skip(2));
        parse_hex_u64(s, from + 2)
    } else {
        assert(!has_hex_prefix(tail)) by {
            if tail.len() >= 2 {
                assert(tail[0] == s@[from as int]);
                assert(tail[1] == s@[from as int + 1]);
            }
        }
        parse_dec_u64(s, from)
    }
}

/// Parses an optionally `-`-signed magnitude starting at position 0:
/// the sign flag and the magnitude.
fn parse_int_text(s: &[u8]) -> (r: Option<(bool, u64)>)
    ensures
        ({
            let t = s@;
            match r {
                Some((neg, m)) => int_text_ok(t) && neg == has_minus(t) && m == if has_minus(t) {
                    magnitude_value(t.skip(1))
                } else {
                    magnitude_value(t)
                },
                None => !(int_text_ok(t) && (if has_minus(t) {
                    magnitude_value(t.skip(1))
                } else {
                    magnitude_value(t)
                }) <= u64_max()),
            }
        }),
{
    if s.len() >= 1 && s[0] == 45 {
        assert(has_minus(s@));
        match parse_magnitude(s, 1) {
            Some(m) => Some((true, m)),
            None => None,
        }
    } else {
        assert(!has_minus(s@));
        match parse_magnitude(s, 0) {
            Some(m) => {
                assert(s@.skip(0) =~= s@);
                Some((false, m))
            },
            None => {
                assert(s@.skip(0) =~= s@);
                None
            },
        }
    }
}

// ---------------------------------------------------------------------------
// Byte-level encoding helpers.
// ---------------------------------------------------------------------------

/// The `w` little-endian bytes of `v`, executable side.
fn u64_to_le(v: u64, w: usize) -> (b: Vec<u8>)
    ensures
        b@ == le_bytes_of(v as nat, w as nat),
{
    let mut b: Vec<u8> = Vec::new();
    let mut x: u64 = v;
    let mut i: usize = 0;
    while i < w
        invariant
            i <= w,
            b@.len() == i,
            le_bytes_of(v as nat, w as nat) =~= b@ + le_bytes_of(x as nat, (w - i) as nat),
        decreases w - i,
    {
        let lo: u8 = (x % 256) as u8;
        proof {
            assert(le_bytes_of(x as nat, (w - i) as nat) =~= seq![lo] + le_bytes_of(
                (x as nat) / 256,
                (w - i - 1) as nat,
            ));
            assert(b@.push(lo) + le_bytes_of((x as nat) / 256, (w - i - 1) as nat) =~= b@ + (
            seq![lo] + le_bytes_of((x as nat) / 256, (w - i - 1) as nat)));
        }
        b.push(lo);
        x = x / 256;
        i = i + 1;
    }
    proof {
        assert(le_bytes_of(x as nat, 0) =~= Seq::<u8>::empty());
        assert(b@ + Seq::<u8>::empty() =~= b@);
    }
    b
}

proof fn lemma_le_value_bound(b: Seq<u8>)
    ensures
        le_value_of(b) < pow256(b.len()),
    decreases b.len(),
{
    if b.len() == 0 {
    } else {
        lemma_le_value_bound(b.drop_first());
    }
}

/// The value of a little-endian byte string of width at most 8.
fn le_to_u64(b: &Vec<u8>) -> (v: u64)
    requires
        b@.len() <= 8,
    ensures
        v as nat == le_value_of(b@),
{
    proof {
        reveal_with_fuel(pow256, 9);
    }
    let mut acc: u64 = 0;
    let mut i: usize = b.len();
    while i > 0
        invariant
            i <= b@.len() <= 8,
            acc as nat == le_value_of(b@.skip(i as int)),
            le_value_of(b@.skip(i as int)) < pow256((b@.len() - i) as nat),
            pow256(8) == 0x1_0000_0000_0000_0000,
        decreases i,
    {
        proof {
            assert(b@.skip(i as int - 1).drop_first() =~= b@.skip(i as int));
            assert(b@.skip(i as int - 1)[0] == b@[i as int - 1]);
            assert(le_value_of(b@.skip(i as int - 1)) == b@[i as int - 1] as nat + 256
                * le_value_of(b@.skip(i as int)));
            lemma_le_value_bound(b@.skip(i as int - 1));
            lemma_pow256_increases((b@.len() - i + 1) as nat, 8);
        }
        acc = acc * 256 + (b[i - 1] as u64);
        i = i - 1;
    }
    proof {
        assert(b@.skip(0) =~= b@);
    }
    acc
}

proof fn lemma_pow256_increases(m: nat, n: nat)
    requires
        m <= n,
    ensures
        pow256(m) <= pow256(n),
    decreases n,
{
    if m < n {
        lemma_pow256_increases(m, (n - 1) as nat);
        assert(pow256(n) == 256 * pow256((n - 1) as nat));
    }
}

/// Decimal rendering of `v`, most significant digit first.
fn dec_render(v: u64) -> (r: Vec<u8>)
    ensures
        r@ == dec_digits_of(v as nat),
    decreases v,
{
    if v < 10 {
        let mut r: Vec<u8> = Vec::new();
        r.push(48 + v as u8);
        proof {
            assert(r@ =~= dec_digits_of(v as nat));
        }
        r
    } else {
        let mut r = dec_render(v / 10);
        r.push(48 + (v % 10) as u8);
        proof {
            assert(r@ =~= dec_digits_of(v as nat));
        }
        r
    }
}

// ---------------------------------------------------------------------------
// Strings in and out.
// ---------------------------------------------------------------------------

/// Relies on `String::from_utf8`: it returns `Ok` exactly on valid UTF-8,
/// and then the string's characters decode those bytes.
#[verifier::external_body]
fn string_from_utf8(b: Vec<u8>) -> (r: Option<String>)
    ensures
        r is Some <==> valid_utf8(b@),
        r is Some ==> r->0@ == decode_utf8(b@),
{
    String::from_utf8(b).ok()
}

/// Builds the `String` whose UTF-8 bytes are the ASCII bytes `b`.
fn ascii_to_string(b: Vec<u8>) -> (r: String)
    requires
        forall|i: int| 0 <= i < b@.len() ==> b@[i] < 128,
    ensures
        encode_utf8(r@) == b@,
{
    let ghost bs = b@;
    let ghost chars = Seq::new(bs.len(), |i: int| bs[i] as char);
    proof {
        assert(is_ascii_chars(chars));
        is_ascii_chars_encode_utf8(chars);
        assert(encode_utf8(chars) =~= bs);
        encode_utf8_valid_utf8(chars);
        encode_utf8_decode_utf8(chars);
    }
    match string_from_utf8(b) {
        Some(s) => s,
        None => {
            proof {
                assert(false);
            }
            String::new()
        },
    }
}

// ---------------------------------------------------------------------------
// Hex helpers.
// ---------------------------------------------------------------------------

fn hex_val(b: u8) -> (r: Option<u8>)
    ensures
        match r {
            Some(v) => is_hex_digit(b) && v == hex_digit_val(b),
            None => !is_hex_digit(b),
        },
{
    if 48 <= b && b <= 57 {
        Some(b - 48)
    } else if 97 <= b && b <= 102 {
        Some(b - 87)
    } else if 65 <= b && b <= 70 {
        Some(b - 55)
    } else {
        None
    }
}

/// Decodes the hex digits of `s` from position `from`, one byte per pair.
fn hex_pairs_exec(s: &[u8], from: usize) -> (r: Option<Vec<u8>>)
    requires
        from <= s@.len(),
    ensures
        ({
            let d = s@.skip(from as int);
            match r {
                Some(b) => d.len() % 2 == 0 && all_hex_digits(d) && b@ == hex_pairs(d),
                None => !(d.len() % 2 == 0 && all_hex_digits(d)),
            }
        }),
{
    let ghost d = s@.skip(from as int);
    let slen = s.len();
    let n = slen - from;
    if n % 2 != 0 {
        return None;
    }
    let mut out: Vec<u8> = Vec::new();
    let mut i: usize = 0;
    while i < n / 2
        invariant
            i <= n / 2,
            slen == s@.len(),
            n == slen - from,
            n % 2 == 0,
            from <= slen,
            d == s@.skip(from as int),
            forall|k: int| 0 <= k < 2 * i ==> is_hex_digit(#[trigger] d[k]),
            out@ =~= hex_pairs(d).take(i as int),
        decreases n / 2 - i,
    {
        proof {
            assert(n == 2 * (n / 2));
            assert(2 * i + 1 < n);
            assert(from + 2 * i + 1 < slen);
        }
        let b1 = s[from + 2 * i];
        let b2 = s[from + 2 * i + 1];
        assert(d[2 * i] == b1 && d[2 * i + 1] == b2);
        let v1 = match hex_val(b1) {
            Some(v) => v,
            None => {
                return None;
            },
        };
        let v2 = match hex_val(b2) {
            Some(v) => v,
            None => {
                return None;
            },
        };
        assert(hex_pairs(d)[i as int] == (hex_digit_val(d[2 * i]) * 16 + hex_digit_val(
            d[2 * i + 1],
        )) as u8);
        out.push(v1 * 16 + v2);
        proof {
            assert(out@ =~= hex_pairs(d).take(i + 1));
        }
        i = i + 1;
    }
    proof {
        assert(all_hex_digits(d));
        assert(hex_pairs(d).take((n / 2) as int) =~= hex_pairs(d));
    }
    Some(out)
}

/// Renders `b` as lowercase hex, two digits per byte.
fn hex_render(b: &Vec<u8>) -> (r: Vec<u8>)
    ensures
        r@ == hex_text_of(b@),
{
    let mut out: Vec<u8> = Vec::new();
    let mut i: usize = 0;
    while i < b.len()
        invariant
            i <= b@.len(),
            out@ =~= hex_text_of(b@).take(2 * i),
        decreases b@.len() - i,
    {
        let hi = b[i] / 16;
        let lo = b[i] % 16;
        let c1: u8 = if hi < 10 {
            48 + hi
        } else {
            87 + hi
        };
        let c2: u8 = if lo < 10 {
            48 + lo
        } else {
            87 + lo
        };
        assert(hex_text_of(b@)[2 * i] == hex_char_of(hi));
        assert(hex_text_of(b@)[2 * i + 1] == hex_char_of(lo));
        out.push(c1);
        out.push(c2);
        proof {
            assert(out@ =~= hex_text_of(b@).take(2 * (i + 1)));
        }
        i = i + 1;
    }
    proof {
        assert(hex_text_of(b@).take(2 * b@.len() as int) =~= hex_text_of(b@));
    }
    out
}

/// A fresh copy of the bytes of `b`.
pub(crate) fn copy_bytes(b: &Vec<u8>) -> (r: Vec<u8>)
    ensures
        r@ == b@,
{
    let mut out: Vec<u8> = Vec::new();
    let mut i: usize = 0;
    while i < b.len()
        invariant
            i <= b@.len(),
            out@ =~= b@.take(i as int),
        decreases b@.len() - i,
    {
        out.push(b[i]);
        proof {
            assert(out@ =~= b@.take(i + 1));
        }
        i = i + 1;
    }
    proof {
        assert(b@.take(b@.len() as int) =~= b@);
    }
    out
}

// ---------------------------------------------------------------------------
// The codec, executable side.
// ---------------------------------------------------------------------------

/// Parses `text` according to `t` and yields its byte encoding, or
/// `InvalidValue` exactly where `spec_encode` rejects the text.
pub fn encode(text: &str, t: ValueType) -> (r: Result<Vec<u8>, CoreError>)
    ensures
        match r {
            Ok(b) => spec_encode(text.spec_bytes(), t) == Some(b@),
            Err(e) => e == CoreError::InvalidValue && spec_encode(text.spec_bytes(), t) is None,
        },
{
    let s: &[u8] = text.as_bytes();
    proof {
        assert(s@.skip(0) =~= s@);
    }
    match t {
        ValueType::U32 => {
            match parse_magnitude(s, 0) {
                Some(v) => if v <= 0xffff_ffffu64 {
                    Ok(u64_to_le(v, 4))
                } else {
                    Err(CoreError::InvalidValue)
                },
                None => Err(CoreError::InvalidValue),
            }
        },
        ValueType::U64 => {
            match parse_magnitude(s, 0) {
                Some(v) => Ok(u64_to_le(v, 8)),
                None => Err(CoreError::InvalidValue),
            }
        },
        ValueType::I32 => {
            match parse_int_text(s) {
                Some((neg, m)) => if neg {
                    if m <= 0x8000_0000u64 {
                        let bits: u64 = if m == 0 {
                            0
                        } else {
                            0x1_0000_0000u64 - m
                        };
                        assert(bits as nat == to_unsigned(int_text_value(s@), mod32()));
                        Ok(u64_to_le(bits, 4))
                    } else {
                        Err(CoreError::InvalidValue)
                    }
                } else {
                    if m <= 0x7fff_ffffu64 {
                        Ok(u64_to_le(m, 4))
                    } else {
                        Err(CoreError::InvalidValue)
                    }
                },
                None => {
                    assert(spec_encode(s@, ValueType::I32) is None);
                    Err(CoreError::InvalidValue)
                },
            }
        },
        ValueType::I64 => {
            match parse_int_text(s) {
                Some((neg, m)) => if neg {
                    if m <= 0x8000_0000_0000_0000u64 {
                        let bits: u64 = if m == 0 {
                            0
                        } else {
                            (0xffff_ffff_ffff_ffffu64 - m) + 1
                        };
                        assert(bits as nat == to_unsigned(int_text_value(s@), mod64()));
                        Ok(u64_to_le(bits, 8))
                    } else {
                        Err(CoreError::InvalidValue)
                    }
                } else {
                    if m <= 0x7fff_ffff_ffff_ffffu64 {
                        Ok(u64_to_le(m, 8))
                    } else {
                        Err(CoreError::InvalidValue)
                    }
                },
                None => {
                    assert(spec_encode(s@, ValueType::I64) is None);
                    Err(CoreError::InvalidValue)
                },
            }
        },
        ValueType::String => Ok(text.as_bytes_vec()),
        ValueType::Hex => {
            let from: usize = if s.len() >= 2 && s[0] == 48 && s[1] == 120 {
                2
            } else {
                0
            };
            proof {
                if from == 2 {
                    assert(has_hex_prefix(s@));
                    assert(strip_hex_prefix(s@) =~= s@.skip(2));
                } else {
                    assert(!has_hex_prefix(s@));
                    assert(strip_hex_prefix(s@) =~= s@.skip(0));
                }
            }
            match hex_pairs_exec(s, from) {
                Some(b) => Ok(b),
                None => Err(CoreError::InvalidValue),
            }
        },
    }
}

proof fn lemma_dec_digits_of(v: nat)
    ensures
        dec_digits_of(v).len() >= 1,
        all_dec_digits(dec_digits_of(v)),
    decreases v,
{
    if v >= 10 {
        lemma_dec_digits_of(v / 10);
    }
}

/// Renders the decimal digits of `v` as a `String`.
fn dec_string(v: u64) -> (r: String)
    ensures
        encode_utf8(r@) == dec_digits_of(v as nat),
{
    let digits = dec_render(v);
    proof {
        lemma_dec_digits_of(v as nat);
    }
    ascii_to_string(digits)
}

/// The inverse direction, used for display: renders `bytes` at type `t`,
/// or `InvalidValue` exactly where `spec_decode` rejects the bytes.
pub fn decode(bytes: &Vec<u8>, t: ValueType) -> (r: Result<String, CoreError>)
    ensures
        match r {
            Ok(s) => spec_decode(bytes@, t) == Some(encode_utf8(s@)),
            Err(e) => e == CoreError::InvalidValue && spec_decode(bytes@, t) is None,
        },
{
    match t {
        ValueType::U32 => {
            if bytes.len() != 4 {
                return Err(CoreError::InvalidValue);
            }
            let v = le_to_u64(bytes);
            Ok(dec_string(v))
        },
        ValueType::U64 => {
            if bytes.len() != 8 {
                return Err(CoreError::InvalidValue);
            }
            let v = le_to_u64(bytes);
            Ok(dec_string(v))
        },
        ValueType::I32 => {
            if bytes.len() != 4 {
                return Err(CoreError::InvalidValue);
            }
            let bits = le_to_u64(bytes);
            proof {
                reveal_with_fuel(pow256, 5);
                lemma_le_value_bound(bytes@);
            }
            if bits < 0x8000_0000u64 {
                Ok(dec_string(bits))
            } else {
                let mag = 0x1_0000_0000u64 - bits;
                Ok(signed_string(mag))
            }
        },
        ValueType::I64 => {
            if bytes.len() != 8 {
                return Err(CoreError::InvalidValue);
            }
            let bits = le_to_u64(bytes);
            proof {
                reveal_with_fuel(pow256, 9);
                lemma_le_value_bound(bytes@);
            }
            if bits < 0x8000_0000_0000_0000u64 {
                Ok(dec_string(bits))
            } else {
                let mag = ((0xffff_ffff_ffff_ffffu64 - bits) + 1) as u64;
                Ok(signed_string(mag))
            }
        },
        ValueType::String => {
            let copy = copy_bytes(bytes);
            match string_from_utf8(copy) {
                Some(s) => {
                    proof {
                        decode_utf8_encode_utf8(bytes@);
                    }
                    Ok(s)
                },
                None => Err(CoreError::InvalidValue),
            }
        },
        ValueType::Hex => {
            let digits = hex_render(bytes);
            proof {
                assert(forall|i: int|
                    0 <= i < hex_text_of(bytes@).len() ==> #[trigger] hex_text_of(bytes@)[i]
                        < 128);
            }
            Ok(ascii_to_string(digits))
        },
    }
}

/// Renders `-mag` as a `String`, for `mag >= 1`.
fn signed_string(mag: u64) -> (r: String)
    requires
        mag >= 1,
    ensures
        encode_utf8(r@) == int_text_of(-(mag as int)),
{
    let mut digits: Vec<u8> = Vec::new();
    digits.push(45);
    let mut rest = dec_render(mag);
    digits.append(&mut rest);
    proof {
        lemma_dec_digits_of(mag as nat);
        assert(digits@ =~= seq![45u8] + dec_digits_of(mag as nat));
    }
    ascii_to_string(digits)
}

// ---------------------------------------------------------------------------
// The round-trip law.
// ---------------------------------------------------------------------------

pub(crate) proof fn lemma_le_bytes_len(v: nat, w: nat)
    ensures
        le_bytes_of(v, w).len() == w,
    decreases w,
{
    if w > 0 {
        lemma_le_bytes_len(v / 256, (w - 1) as nat);
    }
}

proof fn lemma_le_round_trip(v: nat, w: nat)
    requires
        v < pow256(w),
    ensures
        le_value_of(le_bytes_of(v, w)) == v,
    decreases w,
{
    if w == 0 {
        assert(le_bytes_of(v, 0) =~= Seq::<u8>::empty());
    } else {
        let b = le_bytes_of(v, w);
        assert(b.drop_first() =~= le_bytes_of(v / 256, (w - 1) as nat));
        lemma_le_round_trip(v / 256, (w - 1) as nat);
        assert(le_value_of(b) == (v % 256) + 256 * (v / 256));
    }
}

proof fn lemma_dec_value_of_digits(v: nat)
    ensures
        dec_value(dec_digits_of(v)) == v,
    decreases v,
{
    if v < 10 {
        let d = dec_digits_of(v);
        assert(d == seq![(48 + v) as u8]);
        assert(d.drop_last() =~= Seq::<u8>::empty());
        assert(d.last() == (48 + v) as u8);
        assert(dec_digit_val((48 + v) as u8) == v);
        assert(dec_value(d) == dec_value(d.drop_last()) * 10 + dec_digit_val(d.last()));
        assert(dec_value(Seq::<u8>::empty()) == 0);
    } else {
        let d = dec_digits_of(v);
        assert(d == dec_digits_of(v / 10).push((48 + v % 10) as u8));
        assert(d.drop_last() =~= dec_digits_of(v / 10));
        assert(d.last() == (48 + v % 10) as u8);
        lemma_dec_value_of_digits(v / 10);
        assert(dec_value(d) == dec_value(d.drop_last()) * 10 + dec_digit_val(d.last()));
        assert(dec_digit_val((48 + v % 10) as u8) == v % 10);
        assert(dec_value(d) == (v / 10) * 10 + (v % 10));
        assert(v == 10 * (v / 10) + v % 10);
    }
}

/// The canonical decimal rendering is a well-formed magnitude that reads
/// back as the same value.
proof fn lemma_dec_digits_magnitude(v: nat)
    ensures
        magnitude_ok(dec_digits_of(v)),
        magnitude_value(dec_digits_of(v)) == v,
{
    lemma_dec_digits_of(v);
    lemma_dec_value_of_digits(v);
    let d = dec_digits_of(v);
    assert(!has_hex_prefix(d)) by {
        if d.len() >= 2 {
            assert(is_dec_digit(d[1]));
        }
    }
}

proof fn lemma_hex_round_trip(b: Seq<u8>)
    ensures
        hex_pairs(hex_text_of(b)) =~= b,
        all_hex_digits(hex_text_of(b)),
{
    let t = hex_text_of(b);
    assert forall|i: int| 0 <= i < t.len() implies is_hex_digit(#[trigger] t[i]) by {
        let x = b[i / 2];
        assert(x / 16 < 16 && x % 16 < 16);
    }
    assert forall|i: int| 0 <= i < b.len() implies hex_pairs(t)[i] == b[i] by {
        let x = b[i];
        assert(t[2 * i] == hex_char_of(x / 16));
        assert(t[2 * i + 1] == hex_char_of(x % 16));
        assert(hex_digit_val(hex_char_of(x / 16)) == x / 16);
        assert(hex_digit_val(hex_char_of(x % 16)) == x % 16);
        assert(x == 16 * (x / 16) + x % 16);
    }
}

/// Round-trip law: for every type `t` and every text that `encode` accepts
/// at `t`, decoding the encoded bytes yields a display text that denotes
/// the same value — it re-encodes, at the same type, to the same bytes.
pub proof fn lemma_encode_decode_round_trip(text: Seq<u8>, t: ValueType)
    requires
        spec_encode(text, t) is Some,
        t is String ==> valid_utf8(text),
    ensures
        ({
            let b = spec_encode(text, t)->0;
            &&& spec_decode(b, t) is Some
            &&& spec_encode(spec_decode(b, t)->0, t) == Some(b)
        }),
{
    reveal_with_fuel(pow256, 9);
    let b = spec_encode(text, t)->0;
    match t {
        ValueType::U32 => {
            let m = magnitude_value(text);
            lemma_le_bytes_len(m, 4);
            lemma_le_round_trip(m, 4);
            lemma_dec_digits_magnitude(m);
        },
        ValueType::U64 => {
            let m = magnitude_value(text);
            lemma_le_bytes_len(m, 8);
            lemma_le_round_trip(m, 8);
            lemma_dec_digits_magnitude(m);
        },
        ValueType::I32 => {
            let v = int_text_value(text);
            let u = to_unsigned(v, mod32());
            lemma_le_bytes_len(u, 4);
            lemma_le_round_trip(u, 4);
            assert(from_unsigned(u, mod32()) == v);
            lemma_int_text_round_trip(v, mod32());
        },
        ValueType::I64 => {
            let v = int_text_value(text);
            let u = to_unsigned(v, mod64());
            lemma_le_bytes_len(u, 8);
            lemma_le_round_trip(u, 8);
            assert(from_unsigned(u, mod64()) == v);
            lemma_int_text_round_trip(v, mod64());
        },
        ValueType::String => {},
        ValueType::Hex => {
            let d = strip_hex_prefix(text);
            lemma_hex_round_trip(hex_pairs(d));
            let t2 = hex_text_of(hex_pairs(d));
            assert(!has_hex_prefix(t2)) by {
                if t2.len() >= 2 {
                    assert(is_hex_digit(t2[1]));
                }
            }
            assert(strip_hex_prefix(t2) == t2);
        },
    }
}

/// The canonical signed rendering is well formed and reads back as the
/// same value, and its value is in range whenever `v` was.
proof fn lemma_int_text_round_trip(v: int, m: nat)
    requires
        m >= 2,
        -(m as int) / 2 <= v < m,
    ensures
        int_text_ok(int_text_of(v)),
        int_text_value(int_text_of(v)) == v,
{
    if v < 0 {
        let d = int_text_of(v);
        let digits = dec_digits_of((-v) as nat);
        assert(d == seq![45u8] + digits);
        assert(d[0] == 45);
        assert(has_minus(d));
        assert(d.skip(1) =~= digits);
        lemma_dec_digits_magnitude((-v) as nat);
    } else {
        let d = dec_digits_of(v as nat);
        lemma_dec_digits_magnitude(v as nat);
        assert(!has_minus(d)) by {
            lemma_dec_digits_of(v as nat);
            assert(is_dec_digit(d[0]));
        }
    }
}

} // verus!
