//! The invertible table.

use adcnet::auction::iblt::{
    chunk_index, iblt_delta, iblt_field_element_count, IbltError, IbltVector, KEY_BYTES,
};
use adcnet::crypto::fields::{from_le_bytes_packed, P, PACK_BYTES};

#[test]
fn insert_recover_one_xi0() {
    let mut v = IbltVector::new(10);
    let chunk: [u8; KEY_BYTES] = [0x42, 0, 0, 0, 0, 0x99, 0];
    v.insert_chunk(&chunk);
    let r = v.recover().unwrap();
    assert_eq!(r.len(), 1);
    assert_eq!(r[0].key, chunk);
    assert!(r[0].values.is_empty());
}

#[test]
fn insert_recover_many_xi0() {
    let n: u32 = 20;
    let mut v = IbltVector::new(n);
    let mut chunks: Vec<[u8; KEY_BYTES]> = Vec::new();
    for i in 0..n as u8 {
        let mut c = [0u8; KEY_BYTES];
        c[0] = i + 1;
        c[1] = i + 2;
        v.insert_chunk(&c);
        chunks.push(c);
    }
    let mut recovered: Vec<[u8; KEY_BYTES]> =
        v.recover().unwrap().into_iter().map(|e| e.key).collect();
    recovered.sort();
    chunks.sort();
    assert_eq!(recovered, chunks);
}

#[test]
fn insert_recover_with_values() {
    let xi = 3;
    let mut v = IbltVector::new_with_xi(8, xi);
    let key: [u8; KEY_BYTES] = [0xa, 0, 0, 0, 0, 0, 0];
    let v0 = [1u8; PACK_BYTES];
    let v1 = [2u8; PACK_BYTES];
    let v2 = [3u8; PACK_BYTES];
    v.insert(&key, &[&v0, &v1, &v2]).unwrap();
    let r = v.recover().unwrap();
    assert_eq!(r.len(), 1);
    assert_eq!(r[0].key, key);
    assert_eq!(r[0].values.len(), 3);
    assert_eq!(r[0].values[0], v0);
    assert_eq!(r[0].values[1], v1);
    assert_eq!(r[0].values[2], v2);
}

#[test]
fn encode_decode_roundtrip() {
    let mut v = IbltVector::new(10);
    let a: [u8; KEY_BYTES] = [7, 0, 0, 0, 0, 0, 0];
    v.insert_chunk(&a);
    let els = v.encode_as_field_elements();
    let mut v2 = IbltVector::new(10);
    v2.decode_from_elements(&els).unwrap();
    let r = v2.recover().unwrap();
    assert!(r.iter().any(|e| e.key == a));

    // A poisoned pure cell whose key doesn't re-hash to it must stall the
    // peel, not emit a bogus entry.
    let kb: [u8; KEY_BYTES] = [9; KEY_BYTES];
    let home = chunk_index(&kb, 0, v2.delta);
    let col = (0..v2.delta)
        .find(|&c| c != home && v2.counters[v2.cell_idx(0, c)] == 0)
        .unwrap();
    let ci = v2.cell_idx(0, col);
    v2.counters[ci] = 1;
    v2.keys[ci] = from_le_bytes_packed(&kb);
    let err = v2.recover().unwrap_err();
    assert!(matches!(err, IbltError::PeelStalled), "got {err:?}");
}

#[test]
fn decode_wrong_length_errors() {
    let mut v = IbltVector::new(10);
    let err = v.decode_from_elements(&[0u64; 3]).unwrap_err();
    assert!(matches!(err, IbltError::FieldElementCountMismatch { .. }));
}

#[test]
fn insert_arity_mismatch() {
    let mut v = IbltVector::new_with_xi(8, 2);
    let key = [0u8; KEY_BYTES];
    let v0 = [1u8; PACK_BYTES];
    let err = v.insert(&key, &[&v0]).unwrap_err();
    assert!(matches!(err, IbltError::PayloadArity { expected: 2, got: 1 }));
}

#[test]
fn recover_rejects_residual_keys_and_values() {
    for with_entry in [false, true] {
        let mut table = IbltVector::new_with_xi(2, 1);
        if with_entry {
            table.insert(&[1; KEY_BYTES], &[&[2; PACK_BYTES]]).unwrap();
        }
        let empty_cell = table.counters.iter().position(|&c| c == 0).unwrap();
        let mut bad_key = table.clone();
        bad_key.keys[empty_cell] = 1;
        assert!(matches!(bad_key.recover(), Err(IbltError::PeelStalled)));
        table.values[empty_cell] = 1;
        assert!(matches!(table.recover(), Err(IbltError::PeelStalled)));
    }
}

#[test]
fn recover_rejects_unrepresentable_pure_cells() {
    let mut table = IbltVector::new_with_xi(2, 1);
    table.insert(&[1; KEY_BYTES], &[&[2; PACK_BYTES]]).unwrap();
    for value in [1u64 << (PACK_BYTES * 8), adcnet::crypto::fields::P - 1] {
        let mut bad_key = table.clone();
        let mut bad_value = table.clone();
        for (i, &count) in table.counters.iter().enumerate() {
            if count == 1 {
                bad_key.keys[i] = value;
                bad_value.values[i] = value;
            }
        }
        assert!(matches!(bad_key.recover(), Err(IbltError::InvalidPackedElement)));
        assert!(matches!(bad_value.recover(), Err(IbltError::InvalidPackedElement)));
    }
}

#[test]
fn malformed_shapes_are_rejected() {
    let table = IbltVector::new_with_xi(2, 1);
    for mutation in 0..8 {
        let mut bad = table.clone();
        match mutation {
            0 => bad.gamma = 0,
            1 => bad.delta = 0,
            2 => bad.gamma = usize::MAX,
            3 => bad.xi = usize::MAX,
            4 => bad.estimated_elements += 1,
            5 => bad.counters.clear(),
            6 => bad.keys.clear(),
            _ => bad.values.clear(),
        }
        assert!(matches!(bad.recover(), Err(IbltError::InvalidShape)));
        assert!(matches!(bad.decode_from_elements(&[]), Err(IbltError::InvalidShape)));
    }
}

#[test]
fn noncanonical_values_are_rejected_before_decode_mutates() {
    let mut table = IbltVector::new_with_xi(2, 1);
    table.insert(&[1; KEY_BYTES], &[&[2; PACK_BYTES]]).unwrap();
    let before = table.encode_as_field_elements();
    for index in [0, table.counters.len(), 2 * table.counters.len()] {
        for value in [P, u64::MAX] {
            let mut bad = before.clone();
            bad[index] = value;
            assert!(matches!(
                table.decode_from_elements(&bad),
                Err(IbltError::NonCanonicalFieldElement)
            ));
            assert_eq!(table.encode_as_field_elements(), before);
        }
    }
    for component in 0..3 {
        let mut bad = table.clone();
        match component {
            0 => bad.counters[0] = P,
            1 => bad.keys[0] = P,
            _ => bad.values[0] = P,
        }
        assert!(matches!(bad.recover(), Err(IbltError::NonCanonicalFieldElement)));
    }
}

#[test]
fn iblt_rejects_nonzero_residue_with_zero_counters() {
    let mut iblt = IbltVector::new_with_xi(2, 1);
    iblt.values[0] = 1;
    assert!(matches!(iblt.recover(), Err(IbltError::PeelStalled)));
    iblt.values[0] = 0;
    iblt.keys[0] = 1;
    assert!(matches!(iblt.recover(), Err(IbltError::PeelStalled)));
}

#[test]
fn iblt_rejects_malformed_shapes_and_unrepresentable_payloads() {
    let mut iblt = IbltVector::new_with_xi(2, 1);
    iblt.values.clear();
    assert!(matches!(iblt.recover(), Err(IbltError::InvalidShape)));
    let mut iblt = IbltVector::new_with_xi(2, 1);
    iblt.insert(&[1; 7], &[&[2; 7]]).unwrap();
    for (count, value) in iblt.counters.iter().zip(&mut iblt.values) {
        if *count == 1 {
            *value = 1 << 56;
        }
    }
    assert!(matches!(iblt.recover(), Err(IbltError::InvalidPackedElement)));
    let mut elements = iblt.encode_as_field_elements();
    elements[0] = P;
    assert!(matches!(
        iblt.decode_from_elements(&elements),
        Err(IbltError::NonCanonicalFieldElement)
    ));
}

#[test]
fn table_dimensions_are_exact() {
    // δ = max(1, ⌈1.5·n⌉), four rows, counter + key + ξ values per cell.
    for (n, delta) in [(0u32, 1usize), (1, 2), (2, 3), (3, 5), (10, 15), (11, 17)] {
        assert_eq!(iblt_delta(n), delta);
        assert_eq!(iblt_field_element_count(n, 4), 4 * delta * 6);
    }
    let t = IbltVector::new_with_xi(10, 4);
    assert_eq!((t.gamma, t.delta, t.xi), (4, 15, 4));
    assert_eq!(t.counters.len(), 60);
    assert_eq!(t.keys.len(), 60);
    assert_eq!(t.values.len(), 240);
    assert_eq!(t.encode_as_field_elements().len(), iblt_field_element_count(10, 4));
}

#[test]
fn an_entry_stands_once_in_every_row() {
    let mut t = IbltVector::new_with_xi(6, 1);
    let key: [u8; KEY_BYTES] = [1, 2, 3, 4, 5, 6, 7];
    t.insert(&key, &[&[9, 8, 7]]).unwrap();
    for row in 0..t.gamma {
        let home = chunk_index(&key, row, t.delta);
        for col in 0..t.delta {
            let i = t.cell_idx(row, col);
            let here = u64::from(col == home);
            assert_eq!(t.counters[i], here);
            assert_eq!(t.keys[i], here * 0x0007_0605_0403_0201);
            assert_eq!(t.values[i], here * 0x07_0809);
        }
    }
}

#[test]
fn chunk_index_depends_on_key_and_row() {
    let a: [u8; KEY_BYTES] = [1; KEY_BYTES];
    let b: [u8; KEY_BYTES] = [2; KEY_BYTES];
    let wide = 1 << 20;
    assert_ne!(chunk_index(&a, 0, wide), chunk_index(&b, 0, wide));
    assert_ne!(chunk_index(&a, 0, wide), chunk_index(&a, 1, wide));
    for row in 0..4 {
        assert!(chunk_index(&a, row, 7) < 7);
    }
}

#[test]
fn insert_refuses_long_values_without_mutation() {
    let mut t = IbltVector::new_with_xi(4, 1);
    let before = t.encode_as_field_elements();
    let err = t.insert(&[1; KEY_BYTES], &[&[1; PACK_BYTES + 1]]).unwrap_err();
    assert!(matches!(err, IbltError::PayloadTooLarge { .. }), "got {err:?}");
    assert_eq!(t.encode_as_field_elements(), before);
}

#[test]
fn tables_add_up_to_the_entries_of_both() {
    let mut a = IbltVector::new_with_xi(6, 1);
    let mut b = IbltVector::new_with_xi(6, 1);
    a.insert(&[1; KEY_BYTES], &[&[11]]).unwrap();
    b.insert(&[2; KEY_BYTES], &[&[22]]).unwrap();
    let mut sum = a.encode_as_field_elements();
    adcnet::crypto::fields::add_mod_slice(&mut sum, &b.encode_as_field_elements());
    let mut t = IbltVector::new_with_xi(6, 1);
    t.decode_from_elements(&sum).unwrap();
    let mut got: Vec<(u8, u8)> =
        t.recover().unwrap().iter().map(|e| (e.key[0], e.values[0][0])).collect();
    got.sort();
    assert_eq!(got, vec![(1, 11), (2, 22)]);
}

#[test]
fn recovery_stalls_when_a_table_is_overfull() {
    let mut t = IbltVector::new(1);
    for i in 0..40u8 {
        t.insert_chunk(&[i, 1, 2, 3, 4, 5, 6]);
    }
    assert!(matches!(t.recover(), Err(IbltError::PeelStalled)));
}

#[test]
fn recovery_leaves_the_table_as_it_was() {
    let mut t = IbltVector::new(5);
    t.insert_chunk(&[3; KEY_BYTES]);
    let before = t.encode_as_field_elements();
    assert_eq!(t.recover().unwrap(), t.recover().unwrap());
    assert_eq!(t.encode_as_field_elements(), before);
}

#[test]
fn insertion_leaves_what_lies_behind_the_last_cell_alone() {
    let mut exact = IbltVector::new_with_xi(4, 1);
    let mut long = exact.clone();
    long.counters.push(u64::MAX);
    long.keys.push(5);
    long.values.push(6);
    exact.insert(&[3; KEY_BYTES], &[&[4; PACK_BYTES]]).unwrap();
    long.insert(&[3; KEY_BYTES], &[&[4; PACK_BYTES]]).unwrap();
    assert_eq!(long.counters.pop(), Some(u64::MAX));
    assert_eq!(long.keys.pop(), Some(5));
    assert_eq!(long.values.pop(), Some(6));
    assert_eq!(long.encode_as_field_elements(), exact.encode_as_field_elements());
}

#[test]
fn a_table_without_rows_takes_nothing() {
    let mut table = IbltVector::new_with_xi(4, 1);
    table.gamma = 0;
    table.delta = 0;
    let before = table.encode_as_field_elements();
    table.insert(&[3; KEY_BYTES], &[&[4; PACK_BYTES]]).unwrap();
    assert_eq!(table.encode_as_field_elements(), before);
}

#[test]
fn recovered_entries_rebuild_the_table() {
    let mut table = IbltVector::new_with_xi(12, 2);
    for i in 1..9u8 {
        table.insert(&[i; KEY_BYTES], &[&[i + 1; PACK_BYTES], &[i]]).unwrap();
    }
    let entries = table.recover().unwrap();
    assert_eq!(entries.len(), 8);
    let mut rebuilt = IbltVector::new_with_xi(12, 2);
    for e in &entries {
        assert_eq!(e.values.len(), 2);
        assert!(e.values.iter().all(|v| v.len() == PACK_BYTES));
        rebuilt.insert(&e.key, &[&e.values[0], &e.values[1]]).unwrap();
    }
    assert_eq!(rebuilt.encode_as_field_elements(), table.encode_as_field_elements());
    let mut keys: Vec<_> = entries.iter().map(|e| e.key).collect();
    keys.sort();
    keys.dedup();
    assert_eq!(keys.len(), 8);
    for row in table.counters.chunks(table.delta) {
        assert_eq!(row.iter().sum::<u64>(), 8);
    }
}
