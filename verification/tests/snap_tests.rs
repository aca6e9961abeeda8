use snapshot::delta::Delta;
use snapshot::format::Warning;
use snapshot::key;
use snapshot::snap::Builder;
use snapshot::snap::BuilderError;
use snapshot::snap::Error;
use snapshot::snap::Snap;
use snapshot::wire::SnapReader;

fn build(items: &[(u16, u16, &[i32])]) -> Snap {
    let mut b = Builder::new();
    for &(t, id, data) in items {
        b.add_item(t, id, data).unwrap();
    }
    b.finish()
}

#[test]
fn empty_round_trip() {
    let s = Snap::empty();
    assert_eq!(s.crc(), 0);
    let ints = s.write();
    assert_eq!(ints, vec![0, 0]);
    let mut r = SnapReader::new();
    let s2 = r.read(Snap::empty(), &ints).unwrap();
    assert_eq!(s2.items().len(), 0);
    assert_eq!(s2.crc(), 0);
}

#[test]
fn single_item() {
    let s = build(&[(1, 7, &[10, 20, 30])]);
    assert_eq!(s.crc(), 60);
    let ints = s.write();
    assert_eq!(ints[0], 16); // data_size = (3 + 1) * 4
    assert_eq!(ints[1], 1); // num_items
    assert_eq!(ints[2], 0); // offsets table
    assert_eq!(ints[3], (1 << 16) | 7); // key
    assert_eq!(&ints[4..], &[10, 20, 30]);
    let mut r = SnapReader::new();
    let s2 = r.read(Snap::empty(), &ints).unwrap();
    assert_eq!(s2.item(1, 7), Some(&[10, 20, 30][..]));
    assert_eq!(s2.items().len(), 1);
}

#[test]
fn snap_round_trip_many() {
    let s = build(&[(3, 1, &[7]), (1, 2, &[-4, 9]), (2, 5, &[0, 0, 1])]);
    let ints = s.write();
    let mut r = SnapReader::new();
    let s2 = r.read(Snap::empty(), &ints).unwrap();
    assert_eq!(s2.item(3, 1), Some(&[7][..]));
    assert_eq!(s2.item(1, 2), Some(&[-4, 9][..]));
    assert_eq!(s2.item(2, 5), Some(&[0, 0, 1][..]));
    assert_eq!(s2.items().len(), 3);
}

#[test]
fn wire_key_order_unsigned() {
    // type_id 0x8000 gives a negative i32 key, which must sort last.
    let s = build(&[(0x8000, 1, &[1]), (1, 1, &[2]), (2, 2, &[3])]);
    let ints = s.write();
    // items region: 3 offsets after 2 header words; keys at 5, 7, 9.
    let k0 = ints[5];
    let k1 = ints[7];
    let k2 = ints[9];
    assert!((k0 as u32) < (k1 as u32));
    assert!((k1 as u32) < (k2 as u32));
    assert_eq!(k2, key(0x8000, 1));
    let mut r = SnapReader::new();
    let s2 = r.read(Snap::empty(), &ints).unwrap();
    let mut it = s2.items();
    let first = it.next().unwrap();
    assert_eq!((first.0, first.1), (1, 1));
    let second = it.next().unwrap();
    assert_eq!((second.0, second.1), (2, 2));
    let third = it.next().unwrap();
    assert_eq!((third.0, third.1), (0x8000, 1));
    assert!(it.next().is_none());
}

#[test]
fn crc_is_wrapping_sum() {
    let s = build(&[(1, 1, &[i32::MAX, 1]), (1, 2, &[5])]);
    assert_eq!(s.crc(), i32::MAX.wrapping_add(1).wrapping_add(5));
}

#[test]
fn duplicate_key_rejected() {
    let mut b = Builder::new();
    b.add_item(1, 1, &[1]).unwrap();
    assert_eq!(b.add_item(1, 1, &[2]), Err(BuilderError::DuplicateKey));
    // prior state unchanged
    let s = b.finish();
    assert_eq!(s.item(1, 1), Some(&[1][..]));
}

#[test]
fn size_cap_enforced() {
    let mut b = Builder::new();
    let big = vec![1i32; 16384];
    b.add_item(1, 1, &big).unwrap();
    // one more word passes the 65536-byte cap
    assert_eq!(b.add_item(1, 2, &[1]), Err(BuilderError::TooLongSnap));
    let s = b.finish();
    assert_eq!(s.item(1, 1).unwrap().len(), 16384);
    assert_eq!(s.item(1, 2), None);
}

#[test]
fn recycle_clears() {
    let s = build(&[(1, 1, &[1, 2])]);
    let b = s.recycle();
    let s2 = b.finish();
    assert_eq!(s2.items().len(), 0);
    assert_eq!(s2.crc(), 0);
}

#[test]
fn malformed_offsets() {
    // offsets [0, 8, 4] are non-monotonic
    let ints = vec![16, 3, 0, 8, 4];
    let mut r = SnapReader::new();
    assert_eq!(r.read(Snap::empty(), &ints).unwrap_err(), Error::InvalidOffset);
}

#[test]
fn snap_decode_errors() {
    let mut r = SnapReader::new();
    assert_eq!(r.read(Snap::empty(), &[5]).unwrap_err(), Error::UnexpectedEnd);
    // header promises two items, no offsets follow
    assert_eq!(r.read(Snap::empty(), &[16, 2]).unwrap_err(), Error::OffsetsUnpacking);
    // one item of 8 bytes, but no key/data follow
    assert_eq!(r.read(Snap::empty(), &[8, 1, 0]).unwrap_err(), Error::ItemsUnpacking);
    // size not a multiple of four
    assert_eq!(r.read(Snap::empty(), &[6, 1, 0, 99, 1]).unwrap_err(), Error::InvalidOffset);
    // duplicate keys in the stream
    let dup = vec![16, 2, 0, 8, 65537, 1, 65537, 2];
    assert_eq!(r.read(Snap::empty(), &dup).unwrap_err(), Error::DuplicateKey);
    // trailing input after the items
    let trail = vec![8, 1, 0, 65537, 1, 42];
    assert_eq!(r.read(Snap::empty(), &trail).unwrap_err(), Error::ItemsUnpacking);
}

#[test]
fn delta_create_and_apply() {
    let a = build(&[(1, 1, &[5, 5]), (1, 2, &[0])]);
    let b = build(&[(1, 2, &[1]), (2, 1, &[9, 9])]);
    let mut d = Delta::new();
    d.create(&a, &b);
    assert_eq!(d.deleted, vec![key(1, 1)]);
    // updated follows b's build order: (1,2) then (2,1); (2,1) has no
    // from-side so its diff equals the to-data
    assert_eq!(d.buf, vec![1, 9, 9]);
    let mut warn: Vec<Warning> = Vec::new();
    let mut out = Snap::empty();
    out.read_with_delta(&mut warn, &a, &d).unwrap();
    assert!(warn.is_empty());
    assert_eq!(out.item(1, 1), None);
    assert_eq!(out.item(1, 2), Some(&[1][..]));
    assert_eq!(out.item(2, 1), Some(&[9, 9][..]));
    assert_eq!(out.items().len(), 2);
}

#[test]
fn wrapping_delta() {
    let a = build(&[(1, 1, &[i32::MAX])]);
    let b = build(&[(1, 1, &[i32::MIN])]);
    let mut d = Delta::new();
    d.create(&a, &b);
    assert_eq!(d.buf, vec![1]);
    let mut warn: Vec<Warning> = Vec::new();
    let mut out = Snap::empty();
    out.read_with_delta(&mut warn, &a, &d).unwrap();
    assert_eq!(out.item(1, 1), Some(&[i32::MIN][..]));
}

#[test]
fn delta_of_self_is_null() {
    let a = build(&[(1, 1, &[3, -7]), (2, 2, &[i32::MIN])]);
    let mut d = Delta::new();
    d.create(&a, &a);
    assert!(d.deleted.is_empty());
    assert_eq!(d.buf, vec![0, 0, 0]);
    let mut warn: Vec<Warning> = Vec::new();
    let mut out = Snap::empty();
    out.read_with_delta(&mut warn, &a, &d).unwrap();
    assert!(warn.is_empty());
    assert_eq!(out.item(1, 1), Some(&[3, -7][..]));
    assert_eq!(out.item(2, 2), Some(&[i32::MIN][..]));
}

#[test]
fn apply_differing_sizes_fails() {
    let a = build(&[(1, 1, &[1, 2])]);
    let mut d = Delta::new();
    // a delta that claims one diff word for the two-word item
    let mut warn: Vec<Warning> = Vec::new();
    d.read(&mut warn, &[], &[0, 1, 1, 1, 1, 5]).unwrap();
    let mut out = Snap::empty();
    let e = out.read_with_delta(&mut warn, &a, &d).unwrap_err();
    assert_eq!(e, Error::DeltaDifferingSizes);
}

#[test]
fn apply_too_long_snap_fails() {
    // a delta whose single update would pass the 16384-word cap
    let mut ints = vec![0, 1, 1, 1, 16385];
    ints.extend(std::iter::repeat(7).take(16385));
    let mut d = Delta::new();
    let mut warn: Vec<Warning> = Vec::new();
    d.read(&mut warn, &[], &ints).unwrap();
    let a = Snap::empty();
    let mut out = Snap::empty();
    assert_eq!(out.read_with_delta(&mut warn, &a, &d).unwrap_err(), Error::TooLongSnap);
}

#[test]
fn unknown_delete_warns() {
    let a = build(&[(1, 1, &[1])]);
    let mut d = Delta::new();
    let mut warn: Vec<Warning> = Vec::new();
    // one deleted key that a does not hold
    d.read(&mut warn, &[], &[1, 0, key(9, 9)]).unwrap();
    assert!(warn.is_empty());
    let mut out = Snap::empty();
    out.read_with_delta(&mut warn, &a, &d).unwrap();
    assert_eq!(warn, vec![Warning::UnknownDelete]);
    assert_eq!(out.item(1, 1), Some(&[1][..]));
}
