use constant_multiplication::graph_types::{
    decode_params, deserialize_graph_types, get_graph_types, get_graph_types_data, graph_types_at,
    join_params, GraphType, GraphTypesError, Variant,
};

fn put_varint(out: &mut Vec<u8>, n: usize) {
    let mut buf = unsigned_varint::encode::usize_buffer();
    out.extend_from_slice(unsigned_varint::encode::usize(n, &mut buf));
}

fn encode_table(table: &[Vec<(u8, Vec<usize>)>]) -> Vec<u8> {
    let mut out = Vec::new();
    put_varint(&mut out, table.len());
    for list in table {
        put_varint(&mut out, list.len());
        for (tag, params) in list {
            out.push(*tag);
            for p in params {
                put_varint(&mut out, *p);
            }
        }
    }
    out
}

fn gt(variant: Variant, params: &[usize]) -> GraphType {
    GraphType { variant, params: params.to_vec() }
}

fn sample_table() -> Vec<Vec<(u8, Vec<usize>)>> {
    vec![
        vec![],
        vec![(0, vec![1, 2])],
        vec![(0, vec![1, 4]), (1, vec![8, 3])],
        vec![(3, vec![1, 2, 3, 300])],
    ]
}

#[test]
fn variant_tags_names_and_parameter_counts() {
    let expected = [
        ("Adder", 2),
        ("Subtractor", 2),
        ("Cascade", 2),
        ("Leapfrog4_1", 4),
        ("Leapfrog4_2", 4),
        ("Leapfrog4_3", 4),
        ("Leapfrog4_4", 4),
        ("Leapfrog5_1", 5),
        ("Leapfrog5_2", 5),
        ("Leapfrog5_3", 5),
        ("Leapfrog5_4", 5),
        ("Leapfrog7_1", 7),
        ("Leapfrog7_2", 7),
        ("Leapfrog7_3", 7),
        ("Leapfrog7_4", 7),
        ("Leapfrog7_5", 7),
        ("Leapfrog7_6", 7),
        ("Leapfrog7_7", 7),
        ("Leapfrog7_8", 7),
    ];
    for (tag, (name, count)) in expected.iter().enumerate() {
        let v = Variant::from_tag(tag as u8).unwrap();
        assert_eq!(v.name(), *name);
        assert_eq!(v.param_count(), *count);
        assert_eq!(v.is_binary(), tag < 3);
    }
    assert_eq!(Variant::from_tag(19), None);
    assert_eq!(Variant::from_tag(255), None);
}

#[test]
fn repr_writes_parameters_as_shifts() {
    assert_eq!(gt(Variant::Adder, &[1, 4]).__repr__(), "Adder(1, 1 << 2)");
    assert_eq!(gt(Variant::Cascade, &[12, 5]).__repr__(), "Cascade(3 << 2, 5)");
    assert_eq!(gt(Variant::Leapfrog4_1, &[1, 2, 3, 40]).__repr__(), "Leapfrog4_1(1, 1 << 1, 3, 5 << 3)");
    assert_eq!(gt(Variant::Adder, &[]).__repr__(), "Adder()");
}

#[test]
fn join_params_in_decimal() {
    assert_eq!(join_params(&vec![1, 2, 3, 300], false), "1, 2, 3, 300");
    assert_eq!(join_params(&vec![8], true), "1 << 3");
    assert_eq!(join_params(&vec![], false), "");
}

#[test]
fn decode_params_moves_past_what_it_read() {
    let bytes: Vec<u8> = vec![5, 0xac, 0x02, 7, 9];
    let mut remaining: &[u8] = &bytes;
    let params = decode_params(&mut remaining, 3).unwrap();
    assert_eq!(params, vec![5, 300, 7]);
    assert_eq!(remaining, &[9u8][..]);
}

#[test]
fn decode_params_reports_truncated_varint() {
    let bytes: Vec<u8> = vec![5, 0x80];
    let mut remaining: &[u8] = &bytes;
    let err = decode_params(&mut remaining, 2).unwrap_err();
    assert_eq!(err, "Failed to decode usize: not enough input bytes");
    assert_eq!(remaining, &[0x80u8][..]);
}

#[test]
fn deserialize_sample_table() {
    let data = encode_table(&sample_table());
    let all = deserialize_graph_types(&data).unwrap();
    assert_eq!(
        all,
        vec![
            vec![],
            vec![gt(Variant::Adder, &[1, 2])],
            vec![gt(Variant::Adder, &[1, 4]), gt(Variant::Subtractor, &[8, 3])],
            vec![gt(Variant::Leapfrog4_1, &[1, 2, 3, 300])],
        ]
    );
}

#[test]
fn deserialize_ignores_trailing_bytes() {
    let mut data = encode_table(&sample_table());
    data.extend_from_slice(&[0xff, 0xff]);
    assert_eq!(deserialize_graph_types(&data).unwrap().len(), 4);
}

#[test]
fn deserialize_empty_table() {
    assert_eq!(deserialize_graph_types(&[0]).unwrap(), Vec::<Vec<GraphType>>::new());
}

#[test]
fn deserialize_errors() {
    assert_eq!(deserialize_graph_types(&[]).unwrap_err(), "Failed to decode count: not enough input bytes");
    assert_eq!(deserialize_graph_types(&[1]).unwrap_err(), "Failed to decode vec length: not enough input bytes");
    assert_eq!(deserialize_graph_types(&[1, 1]).unwrap_err(), "Unexpected end of data");
    assert_eq!(deserialize_graph_types(&[1, 1, 19]).unwrap_err(), "Unknown variant tag: 19");
    assert_eq!(deserialize_graph_types(&[1, 1, 0, 3]).unwrap_err(), "Failed to decode usize: not enough input bytes");
    assert_eq!(
        deserialize_graph_types(&[1, 1, 0, 3, 0x80, 0x00]).unwrap_err(),
        "Failed to decode usize: encoding is not minimal"
    );
    assert_eq!(deserialize_graph_types(&[2, 0]).unwrap_err(), "Failed to decode vec length: not enough input bytes");
}

#[test]
fn graph_types_data_decompresses_then_decodes() {
    let data = encode_table(&sample_table());
    let compressed = lz4_flex::compress_prepend_size(&data);
    let all = get_graph_types_data(&compressed).unwrap();
    assert_eq!(all, deserialize_graph_types(&data).unwrap());
}

#[test]
fn graph_types_data_errors() {
    let short = get_graph_types_data(&[1, 0]).unwrap_err();
    assert!(short.starts_with("Failed to decompress: "));
    let compressed = lz4_flex::compress_prepend_size(&[1, 1, 19]);
    assert_eq!(get_graph_types_data(&compressed).unwrap_err(), "Failed to deserialize: Unknown variant tag: 19");
}

#[test]
fn graph_types_at_shifts_even_indices() {
    let all = deserialize_graph_types(&encode_table(&sample_table())).unwrap();
    assert_eq!(graph_types_at(&all, 3), Some(vec![gt(Variant::Adder, &[1, 2])]));
    assert_eq!(graph_types_at(&all, 6), graph_types_at(&all, 3));
    assert_eq!(graph_types_at(&all, 48), graph_types_at(&all, 3));
    assert_eq!(graph_types_at(&all, 0), Some(vec![]));
    assert_eq!(graph_types_at(&all, 1), Some(vec![]));
    assert_eq!(graph_types_at(&all, 7), Some(vec![gt(Variant::Leapfrog4_1, &[1, 2, 3, 300])]));
    assert_eq!(graph_types_at(&all, 9), None);
}

#[test]
fn get_graph_types_from_compressed_table() {
    let compressed = lz4_flex::compress_prepend_size(&encode_table(&sample_table()));
    assert_eq!(
        get_graph_types(&compressed, 10),
        Ok(vec![gt(Variant::Adder, &[1, 4]), gt(Variant::Subtractor, &[8, 3])])
    );
    assert_eq!(get_graph_types(&compressed, 11), Err(GraphTypesError::IndexOutOfRange));
    match get_graph_types(&[0, 0], 3) {
        Err(GraphTypesError::Data(msg)) => assert!(msg.starts_with("Failed to decompress: ")),
        other => panic!("unexpected {:?}", other),
    }
}

#[test]
fn deserialize_reports_overlong_count() {
    let mut data = vec![0xFFu8; 10];
    data.push(0x01);
    assert_eq!(deserialize_graph_types(&data).unwrap_err(), "Failed to decode count: input bytes exceed maximum");
}
