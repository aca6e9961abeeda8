use snapshot::chunks::delta_chunks;
use snapshot::chunks::SnapMsg;
use snapshot::delta::Delta;
use snapshot::delta_wire::object_size;
use snapshot::format::Warning;
use snapshot::key;
use snapshot::key_to_id;
use snapshot::key_to_type_id;
use snapshot::snap::Builder;
use snapshot::snap::Error;
use snapshot::snap::Snap;

fn build(items: &[(u16, u16, &[i32])]) -> Snap {
    let mut b = Builder::new();
    for &(t, id, data) in items {
        b.add_item(t, id, data).unwrap();
    }
    b.finish()
}

fn upd_data(d: &Delta, i: usize) -> Vec<i32> {
    let (_, start, end) = d.updated[i];
    d.buf[start..end].to_vec()
}

#[test]
fn key_bijection() {
    for &(t, i) in &[(0u16, 0u16), (1, 7), (0x8000, 0xFFFF), (0xFFFF, 0)] {
        let k = key(t, i);
        assert_eq!(key_to_type_id(k), t);
        assert_eq!(key_to_id(k), i);
    }
    assert_eq!(key(1, 7), 65543);
    assert_eq!(key(0x8000, 0) as u32, 0x8000_0000);
}

#[test]
fn object_size_lookup() {
    let sizes = [(1u16, 2u32), (3, 1)];
    assert_eq!(object_size(&sizes, 1), Some(2));
    assert_eq!(object_size(&sizes, 3), Some(1));
    assert_eq!(object_size(&sizes, 2), None);
}

#[test]
fn delta_round_trip_variable_sizes() {
    let a = build(&[(1, 1, &[5, 5]), (1, 2, &[0])]);
    let b = build(&[(1, 2, &[1]), (2, 1, &[9, 9])]);
    let mut d = Delta::new();
    d.create(&a, &b);
    let ints = d.write(&[]);
    let mut d2 = Delta::new();
    let mut warn: Vec<Warning> = Vec::new();
    d2.read(&mut warn, &[], &ints).unwrap();
    assert!(warn.is_empty());
    assert_eq!(d2.deleted, d.deleted);
    assert_eq!(d2.updated.len(), d.updated.len());
    for i in 0..d.updated.len() {
        assert_eq!(d2.updated[i].0, d.updated[i].0);
        assert_eq!(upd_data(&d2, i), upd_data(&d, i));
    }
}

#[test]
fn delta_round_trip_fixed_schema() {
    let sizes = [(1u16, 1u32), (2, 2)];
    let a = build(&[(1, 1, &[4])]);
    let b = build(&[(1, 1, &[6]), (2, 3, &[7, 8])]);
    let mut d = Delta::new();
    d.create(&a, &b);
    let ints = d.write(&sizes);
    // fixed sizes omit the length words: header + 2*(tid, id) + 3 words
    assert_eq!(ints.len(), 2 + 2 + 1 + 2 + 2);
    let mut d2 = Delta::new();
    let mut warn: Vec<Warning> = Vec::new();
    d2.read(&mut warn, &sizes, &ints).unwrap();
    assert!(warn.is_empty());
    assert_eq!(d2.deleted, d.deleted);
    assert_eq!(d2.updated.len(), d.updated.len());
    for i in 0..d.updated.len() {
        assert_eq!(d2.updated[i].0, d.updated[i].0);
        assert_eq!(upd_data(&d2, i), upd_data(&d, i));
    }
}

#[test]
fn duplicate_update_warning() {
    // the same key twice with different diffs: later wins, one warning
    let ints = vec![0, 2, 1, 1, 1, 5, 1, 1, 1, 9];
    let mut d = Delta::new();
    let mut warn: Vec<Warning> = Vec::new();
    d.read(&mut warn, &[], &ints).unwrap();
    assert_eq!(warn, vec![Warning::DuplicateUpdate]);
    assert_eq!(d.updated.len(), 1);
    assert_eq!(d.updated[0].0, key(1, 1));
    assert_eq!(upd_data(&d, 0), vec![9]);
}

#[test]
fn duplicate_delete_warning() {
    let ints = vec![2, 0, key(1, 1), key(1, 1)];
    let mut d = Delta::new();
    let mut warn: Vec<Warning> = Vec::new();
    d.read(&mut warn, &[], &ints).unwrap();
    assert_eq!(warn, vec![Warning::DuplicateDelete]);
    assert_eq!(d.deleted, vec![key(1, 1)]);
}

#[test]
fn delete_update_warning_keeps_both() {
    let ints = vec![1, 1, key(1, 1), 1, 1, 1, 4];
    let mut d = Delta::new();
    let mut warn: Vec<Warning> = Vec::new();
    d.read(&mut warn, &[], &ints).unwrap();
    assert_eq!(warn, vec![Warning::DeleteUpdate]);
    assert_eq!(d.deleted, vec![key(1, 1)]);
    assert_eq!(d.updated.len(), 1);
}

#[test]
fn num_updated_items_warning() {
    // header claims two updates, stream holds one
    let ints = vec![0, 2, 1, 1, 1, 5];
    let mut d = Delta::new();
    let mut warn: Vec<Warning> = Vec::new();
    d.read(&mut warn, &[], &ints).unwrap();
    assert_eq!(warn, vec![Warning::NumUpdatedItems]);
}

#[test]
fn delta_decode_errors() {
    let mut d = Delta::new();
    let mut warn: Vec<Warning> = Vec::new();
    assert_eq!(d.read(&mut warn, &[], &[1]).unwrap_err(), Error::UnexpectedEnd);
    assert_eq!(d.read(&mut warn, &[], &[1, 0]).unwrap_err(), Error::DeletedItemsUnpacking);
    assert_eq!(d.read(&mut warn, &[], &[0, 0, 5]).unwrap_err(), Error::ItemDiffsUnpacking);
    assert_eq!(d.read(&mut warn, &[], &[0, 0, -1, 1, 1, 5]).unwrap_err(), Error::TypeIdRange);
    assert_eq!(
        d.read(&mut warn, &[], &[0, 0, 1, 0x10000, 1, 5]).unwrap_err(),
        Error::IdRange,
    );
    assert_eq!(d.read(&mut warn, &[], &[0, 0, 1, 1, -2]).unwrap_err(), Error::NegativeSize);
    assert_eq!(d.read(&mut warn, &[], &[0, 1, 1, 1, 3, 5]).unwrap_err(), Error::ItemDiffsUnpacking);
}

#[test]
fn chunks_empty_payload() {
    let mut c = delta_chunks(100, 70, &[], 5);
    match c.next().unwrap() {
        SnapMsg::SnapEmpty(e) => {
            assert_eq!(e.tick, 100);
            assert_eq!(e.delta_tick, 30);
        },
        _ => panic!("expected SnapEmpty"),
    }
    assert!(c.next().is_none());
}

#[test]
fn chunks_single_packet() {
    let data: Vec<u8> = (0..100u8).collect();
    let mut c = delta_chunks(7, 3, &data, 42);
    match c.next().unwrap() {
        SnapMsg::SnapSingle(s) => {
            assert_eq!(s.tick, 7);
            assert_eq!(s.delta_tick, 4);
            assert_eq!(s.crc, 42);
            assert_eq!(s.data, &data[..]);
        },
        _ => panic!("expected SnapSingle"),
    }
    assert!(c.next().is_none());
}

#[test]
fn chunks_split_and_concat() {
    let data: Vec<u8> = (0..2000u32).map(|x| (x % 251) as u8).collect();
    let mut c = delta_chunks(10, 2, &data, 1);
    let mut collected: Vec<u8> = Vec::new();
    let mut parts = 0;
    while let Some(msg) = c.next() {
        match msg {
            SnapMsg::Snap(ch) => {
                assert_eq!(ch.num_parts, 3);
                assert_eq!(ch.part, parts);
                assert!(ch.data.len() <= 900);
                collected.extend_from_slice(ch.data);
            },
            _ => panic!("expected Snap"),
        }
        parts += 1;
    }
    assert_eq!(parts, 3);
    assert_eq!(collected, data);
}

#[test]
fn snap_round_trip_full_then_delta() {
    // chain: build, encode, decode, diff, apply
    let a = build(&[(1, 1, &[1, 2, 3])]);
    let ints = a.write();
    let mut r = snapshot::wire::SnapReader::new();
    let a2 = r.read(Snap::empty(), &ints).unwrap();
    let b = build(&[(1, 1, &[1, 2, 4]), (2, 2, &[9])]);
    let mut d = Delta::new();
    d.create(&a2, &b);
    let mut warn: Vec<Warning> = Vec::new();
    let mut out = Snap::empty();
    out.read_with_delta(&mut warn, &a2, &d).unwrap();
    assert_eq!(out.item(1, 1), Some(&[1, 2, 4][..]));
    assert_eq!(out.item(2, 2), Some(&[9][..]));
}
