use memscan::codec::{encode, ValueType};
use memscan::region::{eligible_regions, MemoryRegion, MemoryRegionPerms};
use memscan::scan::{scan_chunks, RegionData, ScanRequest, ScanResult};
use memscan::CoreError;

fn rw() -> MemoryRegionPerms {
    MemoryRegionPerms { read: true, write: true }
}

fn ro() -> MemoryRegionPerms {
    MemoryRegionPerms { read: true, write: false }
}

#[test]
fn scan_finds_overlapping_pattern_offsets() {
    // buffer [01 02 03 02 03 04], pattern "0203" -> offsets 1 and 3
    let target = encode("0203", ValueType::Hex).unwrap();
    assert_eq!(target, vec![0x02, 0x03]);
    let chunks = vec![RegionData {
        start: 0x1000,
        perms: ro(),
        bytes: vec![0x01, 0x02, 0x03, 0x02, 0x03, 0x04],
    }];
    let results = scan_chunks(&target, ValueType::Hex, &chunks);
    assert_eq!(results.len(), 2);
    assert_eq!(results[0].address, 0x1001);
    assert_eq!(results[1].address, 0x1003);
    assert_eq!(results[0].bytes, vec![0x02, 0x03]);
    assert_eq!(results[0].perms, ro());
}

#[test]
fn scan_reports_overlapping_runs_independently() {
    let chunks = vec![RegionData { start: 0, perms: ro(), bytes: vec![7, 7, 7, 7] }];
    let target = vec![7, 7];
    let results = scan_chunks(&target, ValueType::Hex, &chunks);
    let addrs: Vec<u64> = results.iter().map(|r| r.address).collect();
    assert_eq!(addrs, vec![0, 1, 2]);
}

#[test]
fn scan_orders_results_across_chunks() {
    let target = vec![0xaa];
    let chunks = vec![
        RegionData { start: 0x100, perms: ro(), bytes: vec![0xaa, 0x00, 0xaa] },
        RegionData { start: 0x200, perms: rw(), bytes: vec![0x00, 0xaa] },
    ];
    let results = scan_chunks(&target, ValueType::Hex, &chunks);
    let addrs: Vec<u64> = results.iter().map(|r| r.address).collect();
    assert_eq!(addrs, vec![0x100, 0x102, 0x201]);
    assert_eq!(results[2].perms, rw());
}

#[test]
fn scan_target_longer_than_chunk_finds_nothing() {
    let chunks = vec![RegionData { start: 0, perms: ro(), bytes: vec![1, 2] }];
    let results = scan_chunks(&vec![1, 2, 3], ValueType::Hex, &chunks);
    assert_eq!(results.len(), 0);
}

#[test]
fn scan_no_chunks_is_empty_not_an_error() {
    let results = scan_chunks(&vec![1], ValueType::Hex, &Vec::new());
    assert_eq!(results.len(), 0);
}

#[test]
fn bounds_excluding_region_yield_no_results() {
    // the region lies wholly above the bounds: nothing eligible, no error
    let regions = vec![MemoryRegion { start: 0x2000, end: 0x3000, perms: ro() }];
    let eligible = eligible_regions(&regions, Some(0x0), Some(0x1000));
    assert_eq!(eligible.len(), 0);
    let results = scan_chunks(&vec![1], ValueType::Hex, &Vec::new());
    assert_eq!(results.len(), 0);
}

#[test]
fn bounds_clip_region_to_intersection() {
    let regions = vec![MemoryRegion { start: 0x1000, end: 0x2000, perms: ro() }];
    let eligible = eligible_regions(&regions, Some(0x1800), Some(0x4000));
    assert_eq!(eligible, vec![MemoryRegion { start: 0x1800, end: 0x2000, perms: ro() }]);
}

#[test]
fn unreadable_region_is_not_eligible() {
    let regions = vec![MemoryRegion {
        start: 0x1000,
        end: 0x2000,
        perms: MemoryRegionPerms { read: false, write: true },
    }];
    assert_eq!(eligible_regions(&regions, None, None).len(), 0);
}

#[test]
fn scan_request_rejects_empty_target() {
    assert_eq!(
        ScanRequest::new(1, ValueType::Hex, Vec::new(), None, None).err(),
        Some(CoreError::InvalidValue)
    );
}

#[test]
fn scan_request_rejects_unordered_bounds() {
    assert_eq!(
        ScanRequest::new(1, ValueType::Hex, vec![1], Some(0x20), Some(0x10)).err(),
        Some(CoreError::InvalidValue)
    );
    assert_eq!(
        ScanRequest::new(1, ValueType::Hex, vec![1], Some(0x10), Some(0x10)).err(),
        Some(CoreError::InvalidValue)
    );
}

#[test]
fn scan_request_rejects_width_mismatch() {
    assert_eq!(
        ScanRequest::new(1, ValueType::U32, vec![1, 2], None, None).err(),
        Some(CoreError::InvalidValue)
    );
}

#[test]
fn scan_request_from_text_encodes_target() {
    let q = ScanRequest::from_text(7, ValueType::U32, "300", Some(0x10), Some(0x20)).unwrap();
    assert_eq!(q.pid, 7);
    assert_eq!(q.target, vec![0x2c, 0x01, 0x00, 0x00]);
    assert_eq!(q.start, Some(0x10));
    assert_eq!(q.end, Some(0x20));
}

#[test]
fn scan_request_from_text_rejects_empty_encoding() {
    // an empty string target encodes to no bytes, which a scan rejects
    assert_eq!(
        ScanRequest::from_text(7, ValueType::String, "", None, None).err(),
        Some(CoreError::InvalidValue)
    );
}

#[test]
fn scan_result_redecodes_stored_bytes() {
    let res = ScanResult {
        address: 0x1000,
        perms: ro(),
        bytes: vec![0x2c, 0x01, 0x00, 0x00],
        value_type: ValueType::U32,
    };
    assert_eq!(res.get_string().unwrap(), "300");
}

#[test]
fn written_value_reads_back_equal() {
    // value level of read-after-write: the bytes a write puts down decode
    // to the value that was requested
    let bytes = encode("1234", ValueType::I32).unwrap();
    let res =
        ScanResult { address: 0, perms: rw(), bytes, value_type: ValueType::I32 };
    assert_eq!(res.get_string().unwrap(), "1234");
}
