//! Memory regions: contiguous, permission-tagged spans of the target
//! process's address space, and their selection for a scan.

use vstd::prelude::*;
use vstd::string::StringSliceAdditionalSpecFns;
use crate::codec::all_hex_digits;
use crate::codec::hex_digit_val;
use crate::codec::hex_value;
use crate::codec::u64_max;
use crate::CoreError;

verus! {

/// Access permissions of a mapped region; execute permission is not modeled.
#[derive(Clone, Copy, PartialEq, Eq, Debug, Structural)]
pub struct MemoryRegionPerms {
    pub read: bool,
    pub write: bool,
}

/// A contiguous address range `[start, end)` of the target's address
/// space, an immutable snapshot taken once per scan.
#[derive(Clone, Copy, PartialEq, Eq, Debug, Structural)]
pub struct MemoryRegion {
    pub start: u64,
    pub end: u64,
    pub perms: MemoryRegionPerms,
}

impl MemoryRegion {
    /// A region spans at least one byte.
    pub open spec fn wf(self) -> bool {
        self.start < self.end
    }
}

/// Well-formed regions, in ascending address order, with no overlaps.
pub open spec fn regions_sorted(rs: Seq<MemoryRegion>) -> bool {
    &&& forall|i: int| 0 <= i < rs.len() ==> (#[trigger] rs[i]).wf()
    &&& forall|i: int, j: int| 0 <= i < j < rs.len() ==> rs[i].end <= rs[j].start
}

proof fn lemma_successive_sorted(rs: Seq<MemoryRegion>, i: int, j: int)
    requires
        forall|k: int| 0 <= k < rs.len() ==> (#[trigger] rs[k]).wf(),
        forall|k: int| 0 <= k < rs.len() - 1 ==> (#[trigger] rs[k]).end <= rs[k + 1].start,
        0 <= i < j < rs.len(),
    ensures
        rs[i].end <= rs[j].start,
    decreases j - i,
{
    if i + 1 < j {
        lemma_successive_sorted(rs, i + 1, j);
    }
}

/// Decides whether a region list is sorted ascending with no overlaps,
/// as the OS mapping table guarantees of its output.
pub fn check_regions_sorted(rs: &Vec<MemoryRegion>) -> (r: bool)
    ensures
        r == regions_sorted(rs@),
{
    let mut i: usize = 0;
    while i < rs.len()
        invariant
            i <= rs@.len(),
            forall|k: int| 0 <= k < i ==> (#[trigger] rs@[k]).wf(),
            forall|k: int|
                0 <= k < i && k + 1 < rs@.len() ==> (#[trigger] rs@[k]).end <= rs@[k + 1].start,
        decreases rs@.len() - i,
    {
        if rs[i].start >= rs[i].end {
            return false;
        }
        if i + 1 < rs.len() && rs[i].end > rs[i + 1].start {
            assert(!regions_sorted(rs@));
            return false;
        }
        i = i + 1;
    }
    proof {
        assert forall|a: int, b: int| 0 <= a < b < rs@.len() implies rs@[a].end <= rs@[b].start by {
            lemma_successive_sorted(rs@, a, b);
        }
    }
    true
}

/// The span of `r` clipped to the optional scan bounds; permissions kept.
pub open spec fn clip_bounds(r: MemoryRegion, lo: Option<u64>, hi: Option<u64>) -> MemoryRegion {
    MemoryRegion {
        start: if lo is Some && lo->0 > r.start {
            lo->0
        } else {
            r.start
        },
        end: if hi is Some && hi->0 < r.end {
            hi->0
        } else {
            r.end
        },
        perms: r.perms,
    }
}

/// A region takes part in a scan when it is readable and its clipped span
/// is nonempty.
pub open spec fn eligible(r: MemoryRegion, lo: Option<u64>, hi: Option<u64>) -> bool {
    r.perms.read && clip_bounds(r, lo, hi).wf()
}

/// The eligible regions, clipped, in their original order.
pub open spec fn eligible_seq(rs: Seq<MemoryRegion>, lo: Option<u64>, hi: Option<u64>) -> Seq<
    MemoryRegion,
>
    decreases rs.len(),
{
    if rs.len() == 0 {
        Seq::empty()
    } else {
        let rest = eligible_seq(rs.drop_last(), lo, hi);
        if eligible(rs.last(), lo, hi) {
            rest.push(clip_bounds(rs.last(), lo, hi))
        } else {
            rest
        }
    }
}

/// Selects the regions a scan reads: those with read permission whose
/// intersection with the bounds is nonempty, clipped to that
/// intersection, in their original ascending order.
pub fn eligible_regions(rs: &Vec<MemoryRegion>, lo: Option<u64>, hi: Option<u64>) -> (r: Vec<
    MemoryRegion,
>)
    requires
        regions_sorted(rs@),
    ensures
        r@ == eligible_seq(rs@, lo, hi),
        regions_sorted(r@),
{
    let mut out: Vec<MemoryRegion> = Vec::new();
    let mut i: usize = 0;
    while i < rs.len()
        invariant
            i <= rs@.len(),
            regions_sorted(rs@),
            out@ =~= eligible_seq(rs@.take(i as int), lo, hi),
            regions_sorted(out@),
            out@.len() > 0 && i > 0 ==> out@.last().end <= rs@[i - 1].end,
        decreases rs@.len() - i,
    {
        let reg = rs[i];
        assert(rs@.take(i + 1).drop_last() =~= rs@.take(i as int));
        assert(rs@.take(i + 1).last() == reg);
        let lo_c = match lo {
            Some(l) => if l > reg.start {
                l
            } else {
                reg.start
            },
            None => reg.start,
        };
        let hi_c = match hi {
            Some(h) => if h < reg.end {
                h
            } else {
                reg.end
            },
            None => reg.end,
        };
        if reg.perms.read && lo_c < hi_c {
            let clipped = MemoryRegion { start: lo_c, end: hi_c, perms: reg.perms };
            assert(clipped == clip_bounds(reg, lo, hi));
            proof {
                if out@.len() > 0 {
                    assert(out@.last().end <= rs@[i - 1].end);
                    assert(rs@[i - 1].end <= rs@[i as int].start);
                    assert forall|k: int| 0 <= k < out@.len() implies (#[trigger] out@[k]).end
                        <= clipped.start by {
                        if k < out@.len() - 1 {
                            assert(out@[k].end <= out@[out@.len() - 1].start);
                            assert(out@[out@.len() - 1].start < out@.last().end);
                        }
                    }
                }
            }
            out.push(clipped);
        }
        i = i + 1;
    }
    proof {
        assert(rs@.take(rs@.len() as int) =~= rs@);
    }
    out
}

/// A region wholly outside the requested bounds takes no part in a
/// scan: its clipped span is empty, so it is never selected.
pub proof fn lemma_excluded_region_not_eligible(r: MemoryRegion, lo: Option<u64>, hi: Option<u64>)
    requires
        (lo is Some && r.end <= lo->0) || (hi is Some && r.start >= hi->0),
    ensures
        !eligible(r, lo, hi),
{
}

/// Every region a scan selects lies inside the requested bounds: a
/// region wholly outside them contributes nothing, and is no error.
pub proof fn lemma_eligible_within_bounds(
    rs: Seq<MemoryRegion>,
    lo: Option<u64>,
    hi: Option<u64>,
    k: int,
)
    requires
        0 <= k < eligible_seq(rs, lo, hi).len(),
    ensures
        eligible_seq(rs, lo, hi)[k].wf(),
        eligible_seq(rs, lo, hi)[k].perms.read,
        lo is Some ==> eligible_seq(rs, lo, hi)[k].start >= lo->0,
        hi is Some ==> eligible_seq(rs, lo, hi)[k].end <= hi->0,
    decreases rs.len(),
{
    if rs.len() > 0 {
        let rest = eligible_seq(rs.drop_last(), lo, hi);
        if k < rest.len() {
            lemma_eligible_within_bounds(rs.drop_last(), lo, hi, k);
        }
    }
}

/// The span `[a, a + l)` lies inside `r`.
pub open spec fn covers(r: MemoryRegion, a: u64, l: nat) -> bool {
    r.start <= a && a + l <= r.end
}

/// The permission an access needs: write permission for a write, read
/// permission for a read.
pub open spec fn perm_ok(r: MemoryRegion, need_write: bool) -> bool {
    if need_write {
        r.perms.write
    } else {
        r.perms.read
    }
}

/// Finds a region that wholly contains the access span with the needed
/// permission; `None` says no region does, so the access is out of range.
pub fn find_covering_region(
    rs: &Vec<MemoryRegion>,
    address: u64,
    len: usize,
    need_write: bool,
) -> (r: Option<MemoryRegion>)
    ensures
        match r {
            Some(reg) => rs@.contains(reg) && covers(reg, address, len as nat) && perm_ok(
                reg,
                need_write,
            ),
            None => forall|j: int|
                0 <= j < rs@.len() ==> !(covers(#[trigger] rs@[j], address, len as nat) && perm_ok(
                    rs@[j],
                    need_write,
                )),
        },
{
    let mut i: usize = 0;
    while i < rs.len()
        invariant
            i <= rs@.len(),
            forall|j: int|
                0 <= j < i ==> !(covers(#[trigger] rs@[j], address, len as nat) && perm_ok(
                    rs@[j],
                    need_write,
                )),
        decreases rs@.len() - i,
    {
        let reg = rs[i];
        let has_perm = if need_write {
            reg.perms.write
        } else {
            reg.perms.read
        };
        if has_perm && reg.start <= address && address <= reg.end && reg.end - address
            >= len as u64 {
            assert(rs@[i as int] == reg);
            return Some(reg);
        }
        i = i + 1;
    }
    None
}

// ---------------------------------------------------------------------------
// The mapping table.
// ---------------------------------------------------------------------------

/// The first position at or after `from` where `x` occurs in `b`, or
/// `b.len()` where it does not.
pub open spec fn find_byte(b: Seq<u8>, x: u8, from: int) -> int
    decreases b.len() - from,
{
    if from < 0 || from >= b.len() {
        b.len() as int
    } else if b[from] == x {
        from
    } else {
        find_byte(b, x, from + 1)
    }
}

fn find_byte_exec(s: &[u8], x: u8, from: usize) -> (r: usize)
    requires
        from <= s@.len(),
    ensures
        r == find_byte(s@, x, from as int),
        from <= r <= s@.len(),
        r < s@.len() ==> s@[r as int] == x,
{
    let mut i: usize = from;
    while i < s.len()
        invariant
            from <= i <= s@.len(),
            find_byte(s@, x, from as int) == find_byte(s@, x, i as int),
        decreases s@.len() - i,
    {
        if s[i] == x {
            return i;
        }
        i = i + 1;
    }
    i
}

/// Parses the hex digits of `s` in `[from, to)`.
fn parse_hex_range(s: &[u8], from: usize, to: usize) -> (r: Option<u64>)
    requires
        from <= to <= s@.len(),
    ensures
        ({
            let f = s@.subrange(from as int, to as int);
            match r {
                Some(v) => f.len() > 0 && all_hex_digits(f) && hex_value(f) == v,
                None => !(f.len() > 0 && all_hex_digits(f) && hex_value(f) <= u64_max()),
            }
        }),
{
    let ghost f = s@.subrange(from as int, to as int);
    if from == to {
        return None;
    }
    let mut acc: u64 = 0;
    let mut i: usize = from;
    while i < to
        invariant
            from <= i <= to <= s@.len(),
            f == s@.subrange(from as int, to as int),
            all_hex_digits(f.take(i - from)),
            acc == hex_value(f.take(i - from)),
        decreases to - i,
    {
        let b = s[i];
        let d: u64 = if 48 <= b && b <= 57 {
            (b - 48) as u64
        } else if 97 <= b && b <= 102 {
            (b - 87) as u64
        } else if 65 <= b && b <= 70 {
            (b - 55) as u64
        } else {
            assert(f[i - from] == b);
            return None;
        };
        assert(f.take(i - from + 1).drop_last() =~= f.take(i - from));
        assert(f.take(i - from + 1).last() == f[i - from] == b);
        assert(d == hex_digit_val(b));
        let next = match acc.checked_mul(16) {
            Some(m) => m.checked_add(d),
            None => None,
        };
        match next {
            Some(v) => {
                acc = v;
            },
            None => {
                proof {
                    assert(hex_value(f.take(i - from + 1)) > u64_max());
                    crate::codec::lemma_hex_value_take_le(f, i - from + 1);
                }
                return None;
            },
        }
        i = i + 1;
    }
    assert(f.take(i - from) =~= f);
    Some(acc)
}

/// The region described by one line of the target's mapping table:
/// `start-end perms ...`, both addresses hex, the first two permission
/// flags `r` and `w`. Lines of any other shape denote no region.
pub open spec fn spec_maps_region(b: Seq<u8>) -> Option<MemoryRegion> {
    let d = find_byte(b, 45, 0);
    let sp = find_byte(b, 32, d + 1);
    if d < b.len() && sp + 2 < b.len() {
        let f1 = b.subrange(0, d);
        let f2 = b.subrange(d + 1, sp);
        if f1.len() > 0 && all_hex_digits(f1) && hex_value(f1) <= u64_max() && f2.len() > 0
            && all_hex_digits(f2) && hex_value(f2) <= u64_max() && hex_value(f1) < hex_value(f2) {
            Some(
                MemoryRegion {
                    start: hex_value(f1) as u64,
                    end: hex_value(f2) as u64,
                    perms: MemoryRegionPerms { read: b[sp + 1] == 114, write: b[sp + 2] == 119 },
                },
            )
        } else {
            None
        }
    } else {
        None
    }
}

/// Parses one line of the mapping table into a region; a line that does
/// not describe a well-formed region yields `None`.
pub fn parse_maps_line(line: &str) -> (r: Option<MemoryRegion>)
    ensures
        r == spec_maps_region(line.spec_bytes()),
        r matches Some(reg) ==> reg.wf(),
{
    let s = line.as_bytes();
    let d = find_byte_exec(s, 45, 0);
    if d == s.len() {
        return None;
    }
    let sp = find_byte_exec(s, 32, d + 1);
    if s.len() - sp <= 2 {
        return None;
    }
    let start = match parse_hex_range(s, 0, d) {
        Some(v) => v,
        None => {
            return None;
        },
    };
    let end = match parse_hex_range(s, d + 1, sp) {
        Some(v) => v,
        None => {
            return None;
        },
    };
    if start >= end {
        return None;
    }
    Some(
        MemoryRegion {
            start,
            end,
            perms: MemoryRegionPerms { read: s[sp + 1] == 114, write: s[sp + 2] == 119 },
        },
    )
}

/// The regions the mapping-table lines describe, in their given order;
/// lines of no region shape contribute nothing.
pub open spec fn regions_of_lines(ls: Seq<String>) -> Seq<MemoryRegion>
    decreases ls.len(),
{
    if ls.len() == 0 {
        Seq::empty()
    } else {
        let rest = regions_of_lines(ls.drop_last());
        match spec_maps_region(vstd::utf8::encode_utf8(ls.last()@)) {
            Some(reg) => rest.push(reg),
            None => rest,
        }
    }
}

/// Assembles the region list from the mapping table's lines and holds it
/// to the table's guarantee: ascending order, no overlaps. A table that
/// breaks the guarantee is rejected rather than scanned.
pub fn parse_maps_lines(lines: &Vec<String>) -> (r: Result<Vec<MemoryRegion>, CoreError>)
    ensures
        match r {
            Ok(rs) => rs@ == regions_of_lines(lines@) && regions_sorted(rs@),
            Err(e) => e == CoreError::PermissionDenied && !regions_sorted(regions_of_lines(lines@)),
        },
{
    let mut out: Vec<MemoryRegion> = Vec::new();
    let mut i: usize = 0;
    while i < lines.len()
        invariant
            i <= lines@.len(),
            out@ =~= regions_of_lines(lines@.take(i as int)),
        decreases lines@.len() - i,
    {
        let line = &lines[i];
        assert(lines@.take(i + 1).drop_last() =~= lines@.take(i as int));
        assert(lines@.take(i + 1).last() == lines@[i as int]);
        if let Some(region) = parse_maps_line(line.as_str()) {
            out.push(region);
        }
        i = i + 1;
    }
    proof {
        assert(lines@.take(lines@.len() as int) =~= lines@);
    }
    if check_regions_sorted(&out) {
        Ok(out)
    } else {
        Err(CoreError::PermissionDenied)
    }
}

} // verus!
