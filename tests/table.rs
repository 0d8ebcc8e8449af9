use royal_ur::table::{decode_table, encode_table, Record};

#[test]
fn record_layout_is_little_endian() {
    let recs: Vec<Record> = vec![(0x0102030405060708, [1, 0x80000000, 0xffffffff, 0, 0x3f800000])];
    let bytes = encode_table(&recs);
    assert_eq!(bytes.len(), 28);
    assert_eq!(&bytes[0..8], &[8, 7, 6, 5, 4, 3, 2, 1]);
    assert_eq!(&bytes[8..12], &[1, 0, 0, 0]);
    assert_eq!(&bytes[12..16], &[0, 0, 0, 0x80]);
    assert_eq!(&bytes[16..20], &[0xff, 0xff, 0xff, 0xff]);
    assert_eq!(&bytes[24..28], &1.0f32.to_le_bytes());
}

#[test]
fn table_round_trip_is_bit_exact() {
    let rows: Vec<[f32; 5]> = vec![
        [0.0, -0.0, 1.5, f32::MIN, f32::MAX],
        [0.1, -2.25, f32::MIN_POSITIVE, 3.0e-40, 7.0],
    ];
    let recs: Vec<Record> = rows
        .iter()
        .enumerate()
        .map(|(i, r)| (u64::MAX - i as u64, r.map(f32::to_bits)))
        .collect();
    let back = decode_table(&encode_table(&recs));
    assert_eq!(back, recs);
    for (b, r) in back.iter().zip(rows.iter()) {
        let vals = b.1.map(f32::from_bits);
        for j in 0..5 {
            assert_eq!(vals[j].to_bits(), r[j].to_bits());
        }
    }
}

#[test]
fn truncated_record_is_dropped() {
    let recs: Vec<Record> = vec![(7, [1, 2, 3, 4, 5]), (9, [6, 7, 8, 9, 10])];
    let mut bytes = encode_table(&recs);
    bytes.truncate(28 + 27);
    assert_eq!(decode_table(&bytes), vec![(7, [1, 2, 3, 4, 5])]);
    assert_eq!(decode_table(&bytes[..5].to_vec()), Vec::<Record>::new());
}

#[test]
fn empty_table() {
    assert!(encode_table(&vec![]).is_empty());
    assert!(decode_table(&vec![]).is_empty());
}
