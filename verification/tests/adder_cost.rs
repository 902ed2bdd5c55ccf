use constant_multiplication::adder_cost::{adder_cost, info, parse_data_header, value_position, AdderCostError};

/// Count 8, then the packed 3-bit values 1, 2, 3, 4, 5, 6, 7, 0.
fn packed(count: u64, payload: &[u8]) -> Vec<u8> {
    let mut data = count.to_le_bytes().to_vec();
    data.extend_from_slice(payload);
    data
}

const PAYLOAD: [u8; 3] = [209, 88, 31];

#[test]
fn header_is_little_endian_count() {
    assert_eq!(parse_data_header(&packed(8, &PAYLOAD)), 8);
    assert_eq!(parse_data_header(&packed(0x0102_0304, &[])), 0x0102_0304);
    assert_eq!(parse_data_header(&[0xff; 8]), u64::MAX as usize);
}

#[test]
fn value_position_of_odd_part() {
    assert_eq!(value_position(0), 0);
    assert_eq!(value_position(1), 0);
    assert_eq!(value_position(3), 1);
    assert_eq!(value_position(12), 1);
    assert_eq!(value_position(15), 7);
}

#[test]
fn adder_cost_reads_packed_values() {
    let data = packed(8, &PAYLOAD);
    let got: Vec<Result<u8, AdderCostError>> = [1, 3, 5, 7, 9, 11, 13, 15].iter().map(|&i| adder_cost(&data, i)).collect();
    assert_eq!(got, vec![Ok(1), Ok(2), Ok(3), Ok(4), Ok(5), Ok(6), Ok(7), Ok(0)]);
}

#[test]
fn adder_cost_shifts_even_indices() {
    let data = packed(8, &PAYLOAD);
    assert_eq!(adder_cost(&data, 0), Ok(1));
    assert_eq!(adder_cost(&data, 2), Ok(1));
    assert_eq!(adder_cost(&data, 40), Ok(3));
    assert_eq!(adder_cost(&data, 96), Ok(2));
    for i in 1usize..16 {
        assert_eq!(adder_cost(&data, 2 * i), adder_cost(&data, i));
    }
}

#[test]
fn adder_cost_index_out_of_range() {
    let data = packed(8, &PAYLOAD);
    assert_eq!(adder_cost(&data, 17), Err(AdderCostError::IndexOutOfRange));
    assert_eq!(adder_cost(&packed(0, &PAYLOAD), 1), Err(AdderCostError::IndexOutOfRange));
}

#[test]
fn adder_cost_data_corruption() {
    let data = packed(20, &PAYLOAD);
    assert_eq!(adder_cost(&data, 15), Ok(0));
    assert_eq!(adder_cost(&data, 17), Err(AdderCostError::DataCorruption));
    assert_eq!(adder_cost(&data, 39), Err(AdderCostError::DataCorruption));
    assert_eq!(adder_cost(&data, 41), Err(AdderCostError::IndexOutOfRange));
}

#[test]
fn adder_cost_at_end_of_short_payload() {
    let data = packed(8, &PAYLOAD[..2]);
    assert_eq!(adder_cost(&data, 9), Ok(5));
    assert_eq!(adder_cost(&data, 11), Ok(0));
    assert_eq!(adder_cost(&data, 13), Err(AdderCostError::DataCorruption));
}

#[test]
fn info_describes_data() {
    let data = packed(8, &PAYLOAD);
    assert_eq!(
        info(&data, &[0u8; 1234]),
        "Embedded data: 16 elements, 3 bytes packed, graph types: 1234 bytes compressed"
    );
}
