use memscan::cli::{parse_address, parse_value_type, run, Action, Cli, Commands};
use memscan::codec::ValueType;
use memscan::CoreError;

#[test]
fn value_type_tags_case_insensitive() {
    assert_eq!(parse_value_type("u32"), Ok(ValueType::U32));
    assert_eq!(parse_value_type("U32"), Ok(ValueType::U32));
    assert_eq!(parse_value_type("i32"), Ok(ValueType::I32));
    assert_eq!(parse_value_type("u64"), Ok(ValueType::U64));
    assert_eq!(parse_value_type("I64"), Ok(ValueType::I64));
    assert_eq!(parse_value_type("string"), Ok(ValueType::String));
    assert_eq!(parse_value_type("STRING"), Ok(ValueType::String));
    assert_eq!(parse_value_type("hex"), Ok(ValueType::Hex));
}

#[test]
fn value_type_unknown_tag_rejected() {
    assert_eq!(parse_value_type("float"), Err(CoreError::InvalidValue));
    assert_eq!(parse_value_type(""), Err(CoreError::InvalidValue));
}

#[test]
fn address_absent_stays_absent() {
    assert_eq!(parse_address(None), Ok(None));
}

#[test]
fn address_hex_with_optional_prefix() {
    assert_eq!(parse_address(Some("0x1f")), Ok(Some(0x1f)));
    assert_eq!(parse_address(Some("1f")), Ok(Some(0x1f)));
    assert_eq!(parse_address(Some("DEAD")), Ok(Some(0xdead)));
}

#[test]
fn address_malformed_rejected() {
    assert_eq!(parse_address(Some("zz")), Err(CoreError::InvalidValue));
    assert_eq!(parse_address(Some("")), Err(CoreError::InvalidValue));
    assert_eq!(parse_address(Some("0x")), Err(CoreError::InvalidValue));
    // 17 hex digits overflows 64 bits
    assert_eq!(parse_address(Some("10000000000000000")), Err(CoreError::InvalidValue));
}

#[test]
fn run_list_processes() {
    let r = run(Cli { command: Commands::ListProcesses }).unwrap();
    assert!(matches!(r, Action::ListProcesses));
}

#[test]
fn run_scan_builds_request() {
    let cli = Cli {
        command: Commands::Scan {
            pid: 42,
            value: "0203".to_string(),
            type_tag: "hex".to_string(),
            start: Some("0x1000".to_string()),
            end: Some("0x2000".to_string()),
        },
    };
    match run(cli).unwrap() {
        Action::Scan(q) => {
            assert_eq!(q.pid, 42);
            assert_eq!(q.value_type, ValueType::Hex);
            assert_eq!(q.target, vec![0x02, 0x03]);
            assert_eq!(q.start, Some(0x1000));
            assert_eq!(q.end, Some(0x2000));
        }
        other => panic!("expected a scan action, got {:?}", other),
    }
}

#[test]
fn run_scan_rejects_bad_value() {
    let cli = Cli {
        command: Commands::Scan {
            pid: 42,
            value: "zz".to_string(),
            type_tag: "hex".to_string(),
            start: None,
            end: None,
        },
    };
    assert!(matches!(run(cli), Err(CoreError::InvalidValue)));
}

#[test]
fn run_scan_rejects_unordered_bounds() {
    let cli = Cli {
        command: Commands::Scan {
            pid: 42,
            value: "01".to_string(),
            type_tag: "hex".to_string(),
            start: Some("2000".to_string()),
            end: Some("1000".to_string()),
        },
    };
    assert!(matches!(run(cli), Err(CoreError::InvalidValue)));
}

#[test]
fn run_read_uses_fixed_width_by_default() {
    let cli = Cli {
        command: Commands::Read {
            pid: 3,
            address: "0x400000".to_string(),
            type_tag: "u64".to_string(),
            size: None,
        },
    };
    match run(cli).unwrap() {
        Action::Read { pid, address, value_type, size } => {
            assert_eq!(pid, 3);
            assert_eq!(address, 0x400000);
            assert_eq!(value_type, ValueType::U64);
            assert_eq!(size, 8);
        }
        other => panic!("expected a read action, got {:?}", other),
    }
}

#[test]
fn run_read_defaults_variable_length_to_32() {
    let cli = Cli {
        command: Commands::Read {
            pid: 3,
            address: "10".to_string(),
            type_tag: "hex".to_string(),
            size: None,
        },
    };
    match run(cli).unwrap() {
        Action::Read { size, .. } => assert_eq!(size, 32),
        other => panic!("expected a read action, got {:?}", other),
    }
}

#[test]
fn run_read_keeps_explicit_size() {
    let cli = Cli {
        command: Commands::Read {
            pid: 3,
            address: "10".to_string(),
            type_tag: "string".to_string(),
            size: Some(5),
        },
    };
    match run(cli).unwrap() {
        Action::Read { size, .. } => assert_eq!(size, 5),
        other => panic!("expected a read action, got {:?}", other),
    }
}

#[test]
fn run_write_encodes_value() {
    let cli = Cli {
        command: Commands::Write {
            pid: 9,
            address: "0xff".to_string(),
            value: "300".to_string(),
            type_tag: "i32".to_string(),
        },
    };
    match run(cli).unwrap() {
        Action::Write { pid, address, bytes } => {
            assert_eq!(pid, 9);
            assert_eq!(address, 0xff);
            assert_eq!(bytes, vec![0x2c, 0x01, 0x00, 0x00]);
        }
        other => panic!("expected a write action, got {:?}", other),
    }
}

#[test]
fn run_write_rejects_bad_type_tag() {
    let cli = Cli {
        command: Commands::Write {
            pid: 9,
            address: "0xff".to_string(),
            value: "300".to_string(),
            type_tag: "f32".to_string(),
        },
    };
    assert!(matches!(run(cli), Err(CoreError::InvalidValue)));
}
