//! Command layer: the parsed command forms, and their validation into
//! ready-to-perform actions.

use vstd::prelude::*;
use vstd::string::StringSliceAdditionalSpecFns;
use vstd::utf8::encode_utf8;
use crate::CoreError;
use crate::codec::ValueType;
use crate::codec::spec_fixed_width;
use crate::codec::spec_encode;
use crate::codec::encode;
use crate::codec::all_hex_digits;
use crate::codec::hex_value;
use crate::codec::strip_hex_prefix;
use crate::codec::u64_max;
use crate::scan::ScanRequest;

verus! {

/// The command-line surface of the tool.
#[derive(Debug)]
pub struct Cli {
    pub command: Commands,
}

/// One invocation: list processes, scan for a value, or read or write a
/// single address. Addresses are hex text with an optional `0x` prefix.
#[derive(Debug)]
pub enum Commands {
    ListProcesses,
    Scan {
        pid: u32,
        value: String,
        type_tag: String,
        start: Option<String>,
        end: Option<String>,
    },
    Read { pid: u32, address: String, type_tag: String, size: Option<usize> },
    Write { pid: u32, address: String, value: String, type_tag: String },
}

/// A validated command, ready for the process-facing layer to perform.
#[derive(Debug)]
pub enum Action {
    ListProcesses,
    Scan(ScanRequest),
    Read { pid: u32, address: u64, value_type: ValueType, size: usize },
    Write { pid: u32, address: u64, bytes: Vec<u8> },
}

// ---------------------------------------------------------------------------
// The type tag.
// ---------------------------------------------------------------------------

/// ASCII uppercase letters folded to lowercase, all else untouched.
pub open spec fn ascii_lower(s: Seq<u8>) -> Seq<u8> {
    Seq::new(
        s.len(),
        |i: int| if 65 <= s[i] <= 90 {
            (s[i] + 32) as u8
        } else {
            s[i]
        },
    )
}

/// The tag naming each value type, as lowercase ASCII bytes.
pub open spec fn vt_name(t: ValueType) -> Seq<u8> {
    match t {
        ValueType::U32 => seq![117u8, 51u8, 50u8],
        ValueType::I32 => seq![105u8, 51u8, 50u8],
        ValueType::U64 => seq![117u8, 54u8, 52u8],
        ValueType::I64 => seq![105u8, 54u8, 52u8],
        ValueType::String => seq![115u8, 116u8, 114u8, 105u8, 110u8, 103u8],
        ValueType::Hex => seq![104u8, 101u8, 120u8],
    }
}

/// The value type denoted by the tag `s`, compared case-insensitively.
pub open spec fn spec_value_type(s: Seq<u8>) -> Option<ValueType> {
    if ascii_lower(s) == vt_name(ValueType::U32) {
        Some(ValueType::U32)
    } else if ascii_lower(s) == vt_name(ValueType::I32) {
        Some(ValueType::I32)
    } else if ascii_lower(s) == vt_name(ValueType::U64) {
        Some(ValueType::U64)
    } else if ascii_lower(s) == vt_name(ValueType::I64) {
        Some(ValueType::I64)
    } else if ascii_lower(s) == vt_name(ValueType::String) {
        Some(ValueType::String)
    } else if ascii_lower(s) == vt_name(ValueType::Hex) {
        Some(ValueType::Hex)
    } else {
        None
    }
}

fn eq3(l: &Vec<u8>, a: u8, b: u8, c: u8) -> (r: bool)
    ensures
        r == (l@ == seq![a, b, c]),
{
    let r = l.len() == 3 && l[0] == a && l[1] == b && l[2] == c;
    proof {
        if r {
            assert(l@ =~= seq![a, b, c]);
        } else {
            if l@ == seq![a, b, c] {
                assert(l@.len() == 3);
                assert(l@[0] == a && l@[1] == b && l@[2] == c);
            }
        }
    }
    r
}

fn eq6(l: &Vec<u8>, a: u8, b: u8, c: u8, d: u8, e: u8, f: u8) -> (r: bool)
    ensures
        r == (l@ == seq![a, b, c, d, e, f]),
{
    let r = l.len() == 6 && l[0] == a && l[1] == b && l[2] == c && l[3] == d && l[4] == e && l[5]
        == f;
    proof {
        if r {
            assert(l@ =~= seq![a, b, c, d, e, f]);
        } else {
            if l@ == seq![a, b, c, d, e, f] {
                assert(l@.len() == 6);
                assert(l@[0] == a && l@[1] == b && l@[2] == c && l@[3] == d && l@[4] == e && l@[5]
                    == f);
            }
        }
    }
    r
}

/// Maps a textual type tag, case-insensitively, to its `ValueType`;
/// any other tag is `InvalidValue`.
pub fn parse_value_type(type_str: &str) -> (r: Result<ValueType, CoreError>)
    ensures
        match r {
            Ok(t) => spec_value_type(type_str.spec_bytes()) == Some(t),
            Err(e) => e == CoreError::InvalidValue && spec_value_type(type_str.spec_bytes())
                is None,
        },
{
    let s = type_str.as_bytes();
    let mut l: Vec<u8> = Vec::new();
    let mut i: usize = 0;
    while i < s.len()
        invariant
            i <= s@.len(),
            l@ =~= ascii_lower(s@).take(i as int),
        decreases s@.len() - i,
    {
        let b = s[i];
        let low: u8 = if 65 <= b && b <= 90 {
            b + 32
        } else {
            b
        };
        assert(ascii_lower(s@)[i as int] == low);
        l.push(low);
        proof {
            assert(l@ =~= ascii_lower(s@).take(i + 1));
        }
        i = i + 1;
    }
    proof {
        assert(ascii_lower(s@).take(s@.len() as int) =~= ascii_lower(s@));
    }
    if eq3(&l, 117, 51, 50) {
        Ok(ValueType::U32)
    } else if eq3(&l, 105, 51, 50) {
        Ok(ValueType::I32)
    } else if eq3(&l, 117, 54, 52) {
        Ok(ValueType::U64)
    } else if eq3(&l, 105, 54, 52) {
        Ok(ValueType::I64)
    } else if eq6(&l, 115, 116, 114, 105, 110, 103) {
        Ok(ValueType::String)
    } else if eq3(&l, 104, 101, 120) {
        Ok(ValueType::Hex)
    } else {
        Err(CoreError::InvalidValue)
    }
}

// ---------------------------------------------------------------------------
// Addresses.
// ---------------------------------------------------------------------------

/// The address denoted by hex text with an optional `0x` prefix, where
/// one fits in 64 bits.
pub open spec fn spec_address(s: Seq<u8>) -> Option<u64> {
    let d = strip_hex_prefix(s);
    if d.len() > 0 && all_hex_digits(d) && hex_value(d) <= u64_max() {
        Some(hex_value(d) as u64)
    } else {
        None
    }
}

/// Parses an optional address literal: absent stays absent, malformed or
/// out-of-range text is `InvalidValue`.
pub fn parse_address(addr_str: Option<&str>) -> (r: Result<Option<u64>, CoreError>)
    ensures
        match addr_str {
            None => r == Ok::<Option<u64>, CoreError>(None),
            Some(s) => match r {
                Ok(a) => a is Some && spec_address(s.spec_bytes()) == Some(a->0),
                Err(e) => e == CoreError::InvalidValue && spec_address(s.spec_bytes()) is None,
            },
        },
{
    let s = match addr_str {
        None => {
            return Ok(None);
        },
        Some(s) => s,
    };
    let b = s.as_bytes();
    let from: usize = if b.len() >= 2 && b[0] == 48 && b[1] == 120 {
        2
    } else {
        0
    };
    proof {
        if from == 2 {
            assert(strip_hex_prefix(b@) =~= b@.skip(2));
        } else {
            assert(strip_hex_prefix(b@) =~= b@.skip(0));
        }
    }
    match crate::codec::parse_hex_u64(b, from) {
        Some(v) => Ok(Some(v)),
        None => Err(CoreError::InvalidValue),
    }
}

// ---------------------------------------------------------------------------
// The dispatcher.
// ---------------------------------------------------------------------------

/// The read length used when none is given: the type's fixed width, or
/// 32 bytes for the variable-length types.
pub open spec fn spec_read_size(t: ValueType, size: Option<usize>) -> usize {
    match size {
        Some(n) => n,
        None => match spec_fixed_width(t) {
            Some(w) => w,
            None => 32usize,
        },
    }
}

/// The optional address argument parses: absent, or well-formed text.
pub open spec fn addr_opt_ok(o: Option<String>) -> bool {
    match o {
        None => true,
        Some(s) => spec_address(encode_utf8(s@)) is Some,
    }
}

pub open spec fn addr_opt_value(o: Option<String>) -> Option<u64> {
    match o {
        None => None,
        Some(s) => spec_address(encode_utf8(s@)),
    }
}

/// Everything a scan command needs holds: the tag names a type, the
/// bounds parse, the value encodes to a nonempty target, and the bounds
/// are ordered.
pub open spec fn scan_ok(
    value: Seq<char>,
    type_tag: Seq<char>,
    start: Option<String>,
    end: Option<String>,
) -> bool {
    &&& spec_value_type(encode_utf8(type_tag)) matches Some(t)
    &&& addr_opt_ok(start)
    &&& addr_opt_ok(end)
    &&& spec_encode(encode_utf8(value), spec_value_type(encode_utf8(type_tag))->0) matches Some(b)
    &&& b.len() > 0
    &&& (addr_opt_value(start) is Some && addr_opt_value(end) is Some ==> addr_opt_value(start)->0
        < addr_opt_value(end)->0)
}

pub open spec fn read_ok(address: Seq<char>, type_tag: Seq<char>) -> bool {
    &&& spec_value_type(encode_utf8(type_tag)) is Some
    &&& spec_address(encode_utf8(address)) is Some
}

pub open spec fn write_ok(address: Seq<char>, value: Seq<char>, type_tag: Seq<char>) -> bool {
    &&& spec_value_type(encode_utf8(type_tag)) matches Some(t)
    &&& spec_address(encode_utf8(address)) is Some
    &&& spec_encode(encode_utf8(value), spec_value_type(encode_utf8(type_tag))->0) is Some
}

/// Validates one parsed command into the action to perform, rejecting
/// malformed input with `InvalidValue`; the process-facing layer then
/// carries the action out against the target process.
pub fn run(cli: Cli) -> (r: Result<Action, CoreError>)
    ensures
        match cli.command {
            Commands::ListProcesses => r matches Ok(a) && a is ListProcesses,
            Commands::Scan { pid, value, type_tag, start, end } => match r {
                Ok(a) => {
                    &&& a matches Action::Scan(q)
                    &&& scan_ok(value@, type_tag@, start, end)
                    &&& q.wf()
                    &&& q.pid == pid
                    &&& Some(q.value_type) == spec_value_type(encode_utf8(type_tag@))
                    &&& Some(q.target@) == spec_encode(encode_utf8(value@), q.value_type)
                    &&& q.start == addr_opt_value(start)
                    &&& q.end == addr_opt_value(end)
                },
                Err(e) => e == CoreError::InvalidValue && !scan_ok(value@, type_tag@, start, end),
            },
            Commands::Read { pid, address, type_tag, size } => match r {
                Ok(a) => {
                    &&& a matches Action::Read { pid: p, address: ad, value_type: t, size: n }
                    &&& read_ok(address@, type_tag@)
                    &&& p == pid
                    &&& Some(t) == spec_value_type(encode_utf8(type_tag@))
                    &&& Some(ad) == spec_address(encode_utf8(address@))
                    &&& n == spec_read_size(t, size)
                },
                Err(e) => e == CoreError::InvalidValue && !read_ok(address@, type_tag@),
            },
            Commands::Write { pid, address, value, type_tag } => match r {
                Ok(a) => {
                    &&& a matches Action::Write { pid: p, address: ad, bytes: b }
                    &&& write_ok(address@, value@, type_tag@)
                    &&& p == pid
                    &&& Some(ad) == spec_address(encode_utf8(address@))
                    &&& ({
                        let t = spec_value_type(encode_utf8(type_tag@))->0;
                        Some(b@) == spec_encode(encode_utf8(value@), t)
                    })
                },
                Err(e) => e == CoreError::InvalidValue && !write_ok(address@, value@, type_tag@),
            },
        },
{
    match cli.command {
        Commands::ListProcesses => Ok(Action::ListProcesses),
        Commands::Scan { pid, value, type_tag, start, end } => {
            let t = match parse_value_type(type_tag.as_str()) {
                Ok(t) => t,
                Err(e) => {
                    return Err(e);
                },
            };
            let st = match &start {
                Some(s) => match parse_address(Some(s.as_str())) {
                    Ok(a) => a,
                    Err(e) => {
                        return Err(e);
                    },
                },
                None => None,
            };
            let en = match &end {
                Some(s) => match parse_address(Some(s.as_str())) {
                    Ok(a) => a,
                    Err(e) => {
                        return Err(e);
                    },
                },
                None => None,
            };
            match ScanRequest::from_text(pid, t, value.as_str(), st, en) {
                Ok(q) => Ok(Action::Scan(q)),
                Err(e) => Err(e),
            }
        },
        Commands::Read { pid, address, type_tag, size } => {
            let t = match parse_value_type(type_tag.as_str()) {
                Ok(t) => t,
                Err(e) => {
                    return Err(e);
                },
            };
            let ad = match parse_address(Some(address.as_str())) {
                Ok(a) => match a {
                    Some(ad) => ad,
                    None => {
                        return Err(CoreError::InvalidValue);
                    },
                },
                Err(e) => {
                    return Err(e);
                },
            };
            let n: usize = match size {
                Some(n) => n,
                None => match t.fixed_width() {
                    Some(w) => w,
                    None => 32,
                },
            };
            Ok(Action::Read { pid, address: ad, value_type: t, size: n })
        },
        Commands::Write { pid, address, value, type_tag } => {
            let t = match parse_value_type(type_tag.as_str()) {
                Ok(t) => t,
                Err(e) => {
                    return Err(e);
                },
            };
            let ad = match parse_address(Some(address.as_str())) {
                Ok(a) => match a {
                    Some(ad) => ad,
                    None => {
                        return Err(CoreError::InvalidValue);
                    },
                },
                Err(e) => {
                    return Err(e);
                },
            };
            let b = match encode(value.as_str(), t) {
                Ok(b) => b,
                Err(e) => {
                    return Err(e);
                },
            };
            Ok(Action::Write { pid, address: ad, bytes: b })
        },
    }
}

} // verus!
