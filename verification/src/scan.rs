//! Scan engine: searches snapshots of eligible regions for every
//! occurrence of an encoded target value, and the records it produces.

use vstd::prelude::*;
use crate::CoreError;
use crate::codec::ValueType;
use crate::codec::spec_fixed_width;
use crate::codec::spec_encode;
use crate::codec::spec_decode;
use crate::codec::encode;
use crate::codec::decode;
use crate::codec::copy_bytes;
use crate::region::MemoryRegionPerms;
use vstd::string::StringSliceAdditionalSpecFns;
use vstd::utf8::encode_utf8;

verus! {

/// An occurrence of the target bytes at `hay[i .. i + needle.len())`.
pub open spec fn match_at(hay: Seq<u8>, needle: Seq<u8>, i: int) -> bool {
    &&& 0 <= i
    &&& i + needle.len() <= hay.len()
    &&& hay.subrange(i, i + needle.len() as int) == needle
}

fn is_match(hay: &Vec<u8>, needle: &Vec<u8>, i: usize) -> (r: bool)
    requires
        i + needle@.len() <= hay@.len(),
    ensures
        r == match_at(hay@, needle@, i as int),
{
    let ghost sub = hay@.subrange(i as int, i + needle@.len());
    let hlen = hay.len();
    let mut j: usize = 0;
    while j < needle.len()
        invariant
            j <= needle@.len(),
            hlen == hay@.len(),
            i + needle@.len() <= hay@.len(),
            sub == hay@.subrange(i as int, i + needle@.len()),
            forall|k: int| 0 <= k < j ==> sub[k] == needle@[k],
        decreases needle@.len() - j,
    {
        if hay[i + j] != needle[j] {
            assert(sub[j as int] == hay@[i + j]);
            assert(sub != needle@);
            return false;
        }
        assert(sub[j as int] == needle@[j as int]);
        j = j + 1;
    }
    proof {
        assert(sub =~= needle@);
    }
    true
}

/// Every starting offset in `hay` at which the target bytes occur,
/// ascending; overlapping occurrences are all reported.
pub fn find_matches(hay: &Vec<u8>, needle: &Vec<u8>) -> (r: Vec<usize>)
    requires
        needle@.len() >= 1,
    ensures
        forall|k: int, l: int| 0 <= k < l < r@.len() ==> r@[k] < r@[l],
        forall|k: int| 0 <= k < r@.len() ==> match_at(hay@, needle@, r@[k] as int),
        forall|i: int| match_at(hay@, needle@, i) ==> r@.contains(i as usize),
{
    let mut r: Vec<usize> = Vec::new();
    let n = hay.len();
    let m = needle.len();
    if n < m {
        proof {
            assert forall|i: int| !match_at(hay@, needle@, i) by {}
        }
        return r;
    }
    let mut pos: usize = 0;
    while pos <= n - m
        invariant
            n == hay@.len(),
            m == needle@.len(),
            1 <= m <= n,
            pos <= n - m + 1,
            forall|k: int, l: int| 0 <= k < l < r@.len() ==> r@[k] < r@[l],
            forall|k: int| 0 <= k < r@.len() ==> match_at(hay@, needle@, r@[k] as int),
            forall|k: int| 0 <= k < r@.len() ==> r@[k] < pos,
            forall|i: int| 0 <= i < pos && match_at(hay@, needle@, i) ==> r@.contains(i as usize),
        decreases n - m + 1 - pos,
    {
        if is_match(hay, needle, pos) {
            proof {
                assert forall|i: int|
                    0 <= i < pos && match_at(hay@, needle@, i) implies r@.push(pos).contains(
                    i as usize,
                ) by {
                    assert(r@.contains(i as usize));
                    let k = choose|k: int| 0 <= k < r@.len() && r@[k] == i as usize;
                    assert(r@.push(pos)[k] == i as usize);
                }
            }
            r.push(pos);
            proof {
                assert(r@[r@.len() - 1] == pos);
                assert(r@.contains(pos));
            }
        }
        pos = pos + 1;
    }
    proof {
        assert forall|i: int| match_at(hay@, needle@, i) implies r@.contains(i as usize) by {
            assert(0 <= i < pos);
        }
    }
    r
}

/// An immutable record of one match: the absolute address, the
/// permissions of the region it was found in, its own copy of the raw
/// matched bytes, and the type they were scanned at.
#[derive(Debug)]
pub struct ScanResult {
    pub address: u64,
    pub perms: MemoryRegionPerms,
    pub bytes: Vec<u8>,
    pub value_type: ValueType,
}

impl ScanResult {
    /// Re-decodes the stored bytes to a display string via the codec,
    /// without touching the target process again.
    pub fn get_string(&self) -> (r: Result<String, CoreError>)
        ensures
            match r {
                Ok(s) => spec_decode(self.bytes@, self.value_type) == Some(encode_utf8(s@)),
                Err(e) => e == CoreError::InvalidValue && spec_decode(self.bytes@, self.value_type)
                    is None,
            },
    {
        decode(&self.bytes, self.value_type)
    }
}

/// A validated scan request: target process, value type, the target
/// value already encoded to bytes, and optional address bounds.
#[derive(Debug)]
pub struct ScanRequest {
    pub pid: u32,
    pub value_type: ValueType,
    pub target: Vec<u8>,
    pub start: Option<u64>,
    pub end: Option<u64>,
}

impl ScanRequest {
    /// A request carries a nonempty target whose length agrees with the
    /// type's fixed width where one exists, and ordered bounds.
    pub open spec fn wf(self) -> bool {
        &&& self.target@.len() > 0
        &&& (spec_fixed_width(self.value_type) is Some ==> self.target@.len() == spec_fixed_width(
            self.value_type,
        )->0)
        &&& (self.start is Some && self.end is Some ==> self.start->0 < self.end->0)
    }

    /// Validates a request over an already-encoded target value.
    pub fn new(
        pid: u32,
        value_type: ValueType,
        target: Vec<u8>,
        start: Option<u64>,
        end: Option<u64>,
    ) -> (r: Result<ScanRequest, CoreError>)
        ensures
            match r {
                Ok(q) => {
                    &&& q.wf()
                    &&& q.pid == pid
                    &&& q.value_type == value_type
                    &&& q.target == target
                    &&& q.start == start
                    &&& q.end == end
                },
                Err(e) => {
                    &&& e == CoreError::InvalidValue
                    &&& !({
                        &&& target@.len() > 0
                        &&& (spec_fixed_width(value_type) is Some ==> target@.len()
                            == spec_fixed_width(value_type)->0)
                        &&& (start is Some && end is Some ==> start->0 < end->0)
                    })
                },
            },
    {
        if target.len() == 0 {
            return Err(CoreError::InvalidValue);
        }
        match value_type.fixed_width() {
            Some(w) => if target.len() != w {
                return Err(CoreError::InvalidValue);
            },
            None => {},
        }
        if let (Some(s), Some(e)) = (start, end) {
            if s >= e {
                return Err(CoreError::InvalidValue);
            }
        }
        Ok(ScanRequest { pid, value_type, target, start, end })
    }

    /// Validates a request whose target value is still text: encodes it
    /// at `value_type` through the codec, then checks the bounds.
    pub fn from_text(
        pid: u32,
        value_type: ValueType,
        value_text: &str,
        start: Option<u64>,
        end: Option<u64>,
    ) -> (r: Result<ScanRequest, CoreError>)
        ensures
            match r {
                Ok(q) => {
                    &&& q.wf()
                    &&& q.pid == pid
                    &&& q.value_type == value_type
                    &&& spec_encode(value_text.spec_bytes(), value_type) == Some(q.target@)
                    &&& q.start == start
                    &&& q.end == end
                },
                Err(e) => {
                    &&& e == CoreError::InvalidValue
                    &&& !({
                        &&& spec_encode(value_text.spec_bytes(), value_type) matches Some(b)
                        &&& b.len() > 0
                        &&& (start is Some && end is Some ==> start->0 < end->0)
                    })
                },
            },
    {
        let target = match encode(value_text, value_type) {
            Ok(b) => b,
            Err(e) => {
                return Err(e);
            },
        };
        proof {
            lemma_encoded_width(value_text.spec_bytes(), value_type);
        }
        ScanRequest::new(pid, value_type, target, start, end)
    }
}

/// A successfully read snapshot of one eligible region's clipped span:
/// its base address, the region's permissions, and the bytes read.
#[derive(Debug)]
pub struct RegionData {
    pub start: u64,
    pub perms: MemoryRegionPerms,
    pub bytes: Vec<u8>,
}

impl RegionData {
    pub open spec fn end(self) -> int {
        self.start + self.bytes@.len()
    }
}

/// Snapshots in ascending address order, disjoint, each within the
/// 64-bit address space.
pub open spec fn chunks_wf(cs: Seq<RegionData>) -> bool {
    &&& forall|j: int| 0 <= j < cs.len() ==> (#[trigger] cs[j]).end() <= u64::MAX
    &&& forall|j: int, k: int| 0 <= j < k < cs.len() ==> cs[j].end() <= cs[k].start
}

/// `res` records a genuine occurrence of `target` in one of the chunks,
/// no earlier than the `jbound`-th.
pub open spec fn result_from_upto(
    res: ScanResult,
    cs: Seq<RegionData>,
    jbound: int,
    target: Seq<u8>,
    vt: ValueType,
) -> bool {
    exists|j: int, i: int|
        #![auto]
        {
            &&& 0 <= j < jbound
            &&& match_at(cs[j].bytes@, target, i)
            &&& res.address == cs[j].start + i
            &&& res.perms == cs[j].perms
            &&& res.bytes@ == target
            &&& res.value_type == vt
        }
}

/// `res` records a genuine occurrence of `target` in one of the chunks.
pub open spec fn result_from(
    res: ScanResult,
    cs: Seq<RegionData>,
    target: Seq<u8>,
    vt: ValueType,
) -> bool {
    result_from_upto(res, cs, cs.len() as int, target, vt)
}

/// Some result reports address `a`.
pub open spec fn has_result(rs: Seq<ScanResult>, a: int) -> bool {
    exists|k: int| 0 <= k < rs.len() && (#[trigger] rs[k]).address == a
}

proof fn lemma_has_result_push(rs: Seq<ScanResult>, x: ScanResult, a: int)
    requires
        has_result(rs, a),
    ensures
        has_result(rs.push(x), a),
{
    let k = choose|k: int| 0 <= k < rs.len() && (#[trigger] rs[k]).address == a;
    assert(rs.push(x)[k].address == a);
}

/// The scan proper: every occurrence of the target bytes in any chunk,
/// as one result each, in ascending address order; overlapping
/// occurrences are all reported independently.
pub fn scan_chunks(target: &Vec<u8>, vt: ValueType, chunks: &Vec<RegionData>) -> (r: Vec<
    ScanResult,
>)
    requires
        target@.len() >= 1,
        chunks_wf(chunks@),
    ensures
        forall|k: int, l: int| 0 <= k < l < r@.len() ==> r@[k].address < r@[l].address,
        forall|k: int| 0 <= k < r@.len() ==> result_from(#[trigger] r@[k], chunks@, target@, vt),
        forall|j: int, i: int|
            0 <= j < chunks@.len() && #[trigger] match_at(chunks@[j].bytes@, target@, i)
                ==> has_result(r@, chunks@[j].start + i),
{
    let mut r: Vec<ScanResult> = Vec::new();
    let mut j: usize = 0;
    while j < chunks.len()
        invariant
            j <= chunks@.len(),
            target@.len() >= 1,
            chunks_wf(chunks@),
            forall|k: int, l: int| 0 <= k < l < r@.len() ==> r@[k].address < r@[l].address,
            forall|k: int|
                0 <= k < r@.len() ==> result_from_upto(
                    #[trigger] r@[k],
                    chunks@,
                    j as int,
                    target@,
                    vt,
                ),
            forall|j2: int, i: int|
                0 <= j2 < j && #[trigger] match_at(chunks@[j2].bytes@, target@, i) ==> has_result(
                    r@,
                    chunks@[j2].start + i,
                ),
        decreases chunks@.len() - j,
    {
        let c = &chunks[j];
        assert(*c == chunks@[j as int]);
        let offs = find_matches(&c.bytes, target);
        proof {
            assert forall|k: int| 0 <= k < r@.len() implies (#[trigger] r@[k]).address
                < chunks@[j as int].start by {
                let (j2, i2) = choose|j2: int, i2: int|
                    #![auto]
                    {
                        &&& 0 <= j2 < j
                        &&& match_at(chunks@[j2].bytes@, target@, i2)
                        &&& r@[k].address == chunks@[j2].start + i2
                        &&& r@[k].perms == chunks@[j2].perms
                        &&& r@[k].bytes@ == target@
                        &&& r@[k].value_type == vt
                    };
                assert(i2 < chunks@[j2].bytes@.len());
                assert(chunks@[j2].end() <= chunks@[j as int].start);
            }
        }
        let mut q: usize = 0;
        while q < offs.len()
            invariant
                q <= offs@.len(),
                j < chunks@.len(),
                target@.len() >= 1,
                chunks_wf(chunks@),
                c == chunks@[j as int],
                forall|p: int| 0 <= p < offs@.len() ==> match_at(c.bytes@, target@, offs@[p] as int),
                forall|p1: int, p2: int| 0 <= p1 < p2 < offs@.len() ==> offs@[p1] < offs@[p2],
                forall|i: int| match_at(c.bytes@, target@, i) ==> offs@.contains(i as usize),
                forall|k: int, l: int| 0 <= k < l < r@.len() ==> r@[k].address < r@[l].address,
                forall|k: int|
                    0 <= k < r@.len() ==> result_from_upto(
                        #[trigger] r@[k],
                        chunks@,
                        j + 1,
                        target@,
                        vt,
                    ),
                forall|j2: int, i: int|
                    0 <= j2 < j && #[trigger] match_at(chunks@[j2].bytes@, target@, i)
                        ==> has_result(r@, chunks@[j2].start + i),
                forall|p: int| 0 <= p < q ==> has_result(r@, c.start + offs@[p]),
                forall|k: int|
                    0 <= k < r@.len() ==> (#[trigger] r@[k]).address < c.start + (if q > 0 {
                        offs@[q - 1] + 1int
                    } else {
                        0int
                    }),
            decreases offs@.len() - q,
        {
            let off = offs[q];
            assert(match_at(c.bytes@, target@, off as int));
            assert(off + target@.len() <= c.bytes@.len());
            assert(c.end() <= u64::MAX);
            let address: u64 = c.start + (off as u64);
            let res = ScanResult {
                address,
                perms: c.perms,
                bytes: copy_bytes(target),
                value_type: vt,
            };
            proof {
                let ghost old_r = r@;
                assert forall|j2: int, i: int|
                    0 <= j2 < j && #[trigger] match_at(chunks@[j2].bytes@, target@, i)
                        implies has_result(old_r.push(res), chunks@[j2].start + i) by {
                    lemma_has_result_push(old_r, res, chunks@[j2].start + i);
                }
                assert forall|p: int| 0 <= p < q implies has_result(
                    old_r.push(res),
                    c.start + offs@[p],
                ) by {
                    lemma_has_result_push(old_r, res, c.start + offs@[p]);
                }
            }
            r.push(res);
            proof {
                assert(r@[r@.len() - 1] == res);
                assert(result_from_upto(res, chunks@, j + 1, target@, vt)) by {
                    assert(match_at(chunks@[j as int].bytes@, target@, off as int));
                    assert(res.address == chunks@[j as int].start + off);
                }
                assert(has_result(r@, c.start + offs@[q as int]));
            }
            q = q + 1;
        }
        let blen = c.bytes.len();
        proof {
            assert forall|i: int| match_at(chunks@[j as int].bytes@, target@, i) implies has_result(
                r@,
                chunks@[j as int].start + i,
            ) by {
                assert(0 <= i < blen);
                assert(offs@.contains(i as usize));
                let p = choose|p: int| 0 <= p < offs@.len() && offs@[p] == i as usize;
                assert(has_result(r@, c.start + offs@[p]));
            }
            assert forall|k: int| 0 <= k < r@.len() implies result_from_upto(
                #[trigger] r@[k],
                chunks@,
                j + 1,
                target@,
                vt,
            ) by {}
        }
        j = j + 1;
    }
    r
}

/// Bytes `encode` accepts at a fixed-width type have exactly that width.
proof fn lemma_encoded_width(text: Seq<u8>, t: ValueType)
    requires
        spec_encode(text, t) is Some,
    ensures
        spec_fixed_width(t) is Some ==> spec_encode(text, t)->0.len() == spec_fixed_width(t)->0,
{
    match t {
        ValueType::U32 | ValueType::I32 => {
            lemma_le_bytes_of_len(4);
        },
        ValueType::U64 | ValueType::I64 => {
            lemma_le_bytes_of_len(8);
        },
        _ => {},
    }
}

proof fn lemma_le_bytes_of_len(w: nat)
    ensures
        forall|v: nat| (#[trigger] crate::codec::le_bytes_of(v, w)).len() == w,
{
    assert forall|v: nat| (#[trigger] crate::codec::le_bytes_of(v, w)).len() == w by {
        crate::codec::lemma_le_bytes_len(v, w);
    }
}

} // verus!
