use memscan::region::{
    check_regions_sorted, eligible_regions, find_covering_region, parse_maps_line,
    parse_maps_lines, MemoryRegion, MemoryRegionPerms,
};
use memscan::CoreError;

fn ro() -> MemoryRegionPerms {
    MemoryRegionPerms { read: true, write: false }
}

#[test]
fn maps_line_read_exec_segment() {
    let r = parse_maps_line("00400000-00452000 r-xp 00001000 08:02 173521 /usr/bin/a").unwrap();
    assert_eq!(r.start, 0x400000);
    assert_eq!(r.end, 0x452000);
    assert!(r.perms.read);
    assert!(!r.perms.write);
}

#[test]
fn maps_line_read_write_segment() {
    let r = parse_maps_line("7f5c8a9e2000-7f5c8a9e5000 rw-p 00000000 00:00 0 [heap]").unwrap();
    assert_eq!(r.start, 0x7f5c8a9e2000);
    assert_eq!(r.end, 0x7f5c8a9e5000);
    assert!(r.perms.read);
    assert!(r.perms.write);
}

#[test]
fn maps_line_no_permissions() {
    let r = parse_maps_line("1000-2000 ---p 00000000 00:00 0").unwrap();
    assert!(!r.perms.read);
    assert!(!r.perms.write);
}

#[test]
fn maps_line_malformed_rejected() {
    assert_eq!(parse_maps_line(""), None);
    assert_eq!(parse_maps_line("not a mapping"), None);
    assert_eq!(parse_maps_line("1000-2000"), None);
    assert_eq!(parse_maps_line("zz00-2000 r--p x"), None);
    // an empty span is not a region
    assert_eq!(parse_maps_line("2000-2000 r--p x"), None);
    assert_eq!(parse_maps_line("3000-2000 r--p x"), None);
}

#[test]
fn sorted_check_accepts_ascending_disjoint() {
    let rs = vec![
        MemoryRegion { start: 0x1000, end: 0x2000, perms: ro() },
        MemoryRegion { start: 0x2000, end: 0x3000, perms: ro() },
        MemoryRegion { start: 0x5000, end: 0x6000, perms: ro() },
    ];
    assert!(check_regions_sorted(&rs));
}

#[test]
fn sorted_check_rejects_overlap_and_disorder() {
    let overlapping = vec![
        MemoryRegion { start: 0x1000, end: 0x2800, perms: ro() },
        MemoryRegion { start: 0x2000, end: 0x3000, perms: ro() },
    ];
    assert!(!check_regions_sorted(&overlapping));
    let unordered = vec![
        MemoryRegion { start: 0x5000, end: 0x6000, perms: ro() },
        MemoryRegion { start: 0x1000, end: 0x2000, perms: ro() },
    ];
    assert!(!check_regions_sorted(&unordered));
    let empty_span = vec![MemoryRegion { start: 0x1000, end: 0x1000, perms: ro() }];
    assert!(!check_regions_sorted(&empty_span));
}

#[test]
fn maps_lines_assemble_sorted_list() {
    let lines = vec![
        "1000-2000 r--p 00000000 00:00 0".to_string(),
        "garbage".to_string(),
        "2000-3000 rw-p 00000000 00:00 0".to_string(),
    ];
    let rs = parse_maps_lines(&lines).unwrap();
    assert_eq!(rs.len(), 2);
    assert_eq!(rs[0].start, 0x1000);
    assert_eq!(rs[1].start, 0x2000);
    assert!(rs[1].perms.write);
}

#[test]
fn maps_lines_reject_overlapping_table() {
    let lines = vec![
        "1000-2800 r--p 00000000 00:00 0".to_string(),
        "2000-3000 rw-p 00000000 00:00 0".to_string(),
    ];
    assert_eq!(parse_maps_lines(&lines), Err(CoreError::PermissionDenied));
}

#[test]
fn covering_region_respects_span_and_permission() {
    let rs = vec![
        MemoryRegion { start: 0x1000, end: 0x2000, perms: ro() },
        MemoryRegion {
            start: 0x3000,
            end: 0x4000,
            perms: MemoryRegionPerms { read: true, write: true },
        },
    ];
    // a read inside a readable region
    assert_eq!(find_covering_region(&rs, 0x1000, 0x1000, false), Some(rs[0]));
    assert_eq!(find_covering_region(&rs, 0x1ff0, 0x10, false), Some(rs[0]));
    // the span crosses out of the region
    assert_eq!(find_covering_region(&rs, 0x1ff0, 0x11, false), None);
    // unmapped address
    assert_eq!(find_covering_region(&rs, 0x2800, 1, false), None);
    // a write needs write permission
    assert_eq!(find_covering_region(&rs, 0x1000, 4, true), None);
    assert_eq!(find_covering_region(&rs, 0x3000, 4, true), Some(rs[1]));
}

#[test]
fn eligible_keeps_order_and_clips() {
    let rs = vec![
        MemoryRegion { start: 0x1000, end: 0x2000, perms: ro() },
        MemoryRegion {
            start: 0x3000,
            end: 0x4000,
            perms: MemoryRegionPerms { read: false, write: false },
        },
        MemoryRegion { start: 0x5000, end: 0x6000, perms: ro() },
    ];
    let out = eligible_regions(&rs, Some(0x1800), Some(0x5800));
    assert_eq!(
        out,
        vec![
            MemoryRegion { start: 0x1800, end: 0x2000, perms: ro() },
            MemoryRegion { start: 0x5000, end: 0x5800, perms: ro() },
        ]
    );
}
