use systemd_cpuset::cpuset::{ApplyError, CpuSet, CpuSpec, MaskField, PropertyMap, to_bitmask};
use systemd_cpuset::ranges::ParseError;

const ALLOWED_CPUS: &str = "AllowedCPUs";
const ALLOWED_NODES: &str = "AllowedMemoryNodes";

#[test]
fn to_bitmask_single_value() {
    let cpus = "0"; // 0000 0001

    let bitmask = to_bitmask(cpus).expect("to bitmask");

    assert_eq!(bitmask.len(), 1);
    assert_eq!(bitmask[0], 1);
}

#[test]
fn to_bitmask_multiple_single_values() {
    let cpus = "0,1,2"; // 0000 0111

    let bitmask = to_bitmask(cpus).expect("to bitmask");

    assert_eq!(bitmask.len(), 1);
    assert_eq!(bitmask[0], 7);
}

#[test]
fn to_bitmask_range_value() {
    let cpus = "0-2"; // 0000 0111

    let bitmask = to_bitmask(cpus).expect("to bitmask");

    assert_eq!(bitmask.len(), 1);
    assert_eq!(bitmask[0], 7);
}

#[test]
fn to_bitmask_interchanged_range() {
    let cpus = "2-0";

    let result = to_bitmask(cpus);
    assert!(result.is_err());
}

#[test]
fn to_bitmask_incomplete_range() {
    let cpus = vec!["2-", "-2"];

    for c in cpus {
        let result = to_bitmask(c);
        assert!(result.is_err());
    }
}

#[test]
fn to_bitmask_mixed() {
    let cpus = "0,2-4,7,9-10"; // 0000 0110 1001 1101

    let bitmask = to_bitmask(cpus).expect("to bitmask");

    assert_eq!(bitmask.len(), 2);
    assert_eq!(bitmask[0], 6);
    assert_eq!(bitmask[1], 157);
}

#[test]
fn to_bitmask_extra_characters() {
    let cpus = "0, 2- 4,,7   ,,9-10"; // 0000 0110 1001 1101

    let bitmask = to_bitmask(cpus).expect("to bitmask");
    assert_eq!(bitmask.len(), 2);
    assert_eq!(bitmask[0], 6);
    assert_eq!(bitmask[1], 157);
}

#[test]
fn test_cpuset_systemd_too_old() {
    let systemd_version = 235;
    let cpu = CpuSpec { cpus: None, mems: None };
    let mut properties = PropertyMap::new();

    let result = CpuSet::apply(&cpu, systemd_version, &mut properties);

    assert!(result.is_err());
}

#[test]
fn test_cpuset_set() {
    let systemd_version = 245;
    let cpu = CpuSpec {
        cpus: Some("0-3".to_string()),
        mems: Some("0-3".to_string()),
    };
    let mut properties = PropertyMap::new();

    CpuSet::apply(&cpu, systemd_version, &mut properties).expect("apply cpuset");

    assert_eq!(properties.len(), 2);
    assert!(properties.contains_key(ALLOWED_CPUS));
    let cpus = properties.get(ALLOWED_CPUS).unwrap();
    assert_eq!(cpus, &vec![0x0Fu8]);

    assert!(properties.contains_key(ALLOWED_NODES));
    let mems = properties.get(ALLOWED_NODES).unwrap();
    assert_eq!(mems, &vec![0x0Fu8]);
}

#[test]
fn union_of_overlapping_tokens() {
    // repeated indices contribute once: the mask is a union of bits
    assert_eq!(to_bitmask("0,0-2"), to_bitmask("0-2"));
}

#[test]
fn whitespace_is_insignificant() {
    assert_eq!(to_bitmask("0, 2- 4,,7   ,,9-10"), to_bitmask("0,2-4,7,9-10"));
}

#[test]
fn single_bit_has_power_of_two_value() {
    // "12" sets only bit 12: big-endian value 2^12
    let bitmask = to_bitmask("12").expect("to bitmask");
    assert_eq!(bitmask, vec![0x10u8, 0x00u8]);
    let value = bitmask.iter().fold(0u64, |acc, b| acc * 256 + *b as u64);
    assert_eq!(value, 1u64 << 12);
}

#[test]
fn range_has_summed_value() {
    // "9-10" sets bits 9 and 10: big-endian value 2^9 + 2^10
    let bitmask = to_bitmask("9-10").expect("to bitmask");
    assert_eq!(bitmask, vec![0x06u8, 0x00u8]);
    let value = bitmask.iter().fold(0u64, |acc, b| acc * 256 + *b as u64);
    assert_eq!(value, (1u64 << 9) + (1u64 << 10));
}

#[test]
fn no_leading_zero_bytes() {
    // bits 0..=7 all clear: the all-zero leading byte is stripped
    let bitmask = to_bitmask("8").expect("to bitmask");
    assert_eq!(bitmask, vec![0x01u8, 0x00u8]);
    assert!(bitmask[0] != 0);
}

#[test]
fn empty_input_gives_empty_mask() {
    assert_eq!(to_bitmask(""), Ok(vec![]));
    assert_eq!(to_bitmask("   "), Ok(vec![]));
    assert_eq!(to_bitmask(",,"), Ok(vec![]));
}

#[test]
fn non_numeric_token_is_invalid_integer() {
    assert_eq!(to_bitmask("x"), Err(ParseError::InvalidInteger));
    assert_eq!(to_bitmask("1,two"), Err(ParseError::InvalidInteger));
    assert_eq!(to_bitmask("1-x"), Err(ParseError::InvalidInteger));
}

#[test]
fn inverted_range_is_invalid_range() {
    assert_eq!(to_bitmask("2-0"), Err(ParseError::InvalidRange));
}

#[test]
fn oversized_index_is_invalid_integer() {
    assert_eq!(
        to_bitmask("99999999999999999999999999"),
        Err(ParseError::InvalidInteger)
    );
}

#[test]
fn extra_dash_parts_are_rejected() {
    // a token with more than one dash is no `<uint>-<uint>` pair: the side
    // right of the first dash fails the integer parse
    assert_eq!(to_bitmask("1-2-3"), Err(ParseError::InvalidInteger));
}

#[test]
fn apply_without_cpu_section_is_a_no_op() {
    let mut properties = PropertyMap::new();

    let result = CpuSet::apply_resources(None, 235, &mut properties);

    assert!(result.is_ok());
    assert_eq!(properties.len(), 0);
}

#[test]
fn version_check_covers_both_lists() {
    let cpu = CpuSpec {
        cpus: Some("0-3".to_string()),
        mems: Some("0-3".to_string()),
    };
    let mut properties = PropertyMap::new();

    let result = CpuSet::apply(&cpu, 235, &mut properties);

    assert_eq!(result, Err(ApplyError::UnsupportedVersion));
    assert_eq!(properties.len(), 0);
}

#[test]
fn cpu_list_error_is_reported_with_its_field() {
    let cpu = CpuSpec {
        cpus: Some("2-0".to_string()),
        mems: Some("0".to_string()),
    };
    let mut properties = PropertyMap::new();

    let result = CpuSet::apply(&cpu, 245, &mut properties);

    assert_eq!(
        result,
        Err(ApplyError::EncodingFailed {
            field: MaskField::Cpus,
            cause: ParseError::InvalidRange,
        })
    );
    assert_eq!(properties.len(), 0);
}

#[test]
fn memory_node_error_keeps_cpu_property() {
    let cpu = CpuSpec {
        cpus: Some("0".to_string()),
        mems: Some("x".to_string()),
    };
    let mut properties = PropertyMap::new();

    let result = CpuSet::apply(&cpu, 245, &mut properties);

    assert_eq!(
        result,
        Err(ApplyError::EncodingFailed {
            field: MaskField::MemoryNodes,
            cause: ParseError::InvalidInteger,
        })
    );
    assert_eq!(properties.len(), 1);
    assert_eq!(properties.get(ALLOWED_CPUS).unwrap(), &vec![1u8]);
}

#[test]
fn apply_with_no_lists_writes_nothing() {
    let cpu = CpuSpec { cpus: None, mems: None };
    let mut properties = PropertyMap::new();

    let result = CpuSet::apply(&cpu, 245, &mut properties);

    assert!(result.is_ok());
    assert_eq!(properties.len(), 0);
}

#[test]
fn insert_replaces_existing_property() {
    let mut properties = PropertyMap::new();
    let cpu = CpuSpec { cpus: Some("0".to_string()), mems: None };
    CpuSet::apply(&cpu, 245, &mut properties).expect("apply cpuset");
    assert_eq!(properties.get(ALLOWED_CPUS).unwrap(), &vec![1u8]);

    let wider = CpuSpec { cpus: Some("0-3".to_string()), mems: None };
    CpuSet::apply(&wider, 245, &mut properties).expect("apply cpuset");
    assert_eq!(properties.len(), 1);
    assert_eq!(properties.get(ALLOWED_CPUS).unwrap(), &vec![15u8]);
}

#[test]
fn error_messages_name_the_failure() {
    assert_eq!(
        ParseError::InvalidRange.message(),
        "invalid range: start is greater than end"
    );
    assert_eq!(
        ParseError::InvalidInteger.message(),
        "invalid index: not a non-negative integer"
    );
    assert_eq!(
        ApplyError::UnsupportedVersion.message(),
        "setting cpuset restrictions requires systemd version greater than 243"
    );
    assert_eq!(
        ApplyError::EncodingFailed {
            field: MaskField::MemoryNodes,
            cause: ParseError::InvalidInteger,
        }
        .message(),
        "could not create bitmask for memory nodes"
    );
}
