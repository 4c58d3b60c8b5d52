//! Exercises of the trie, the triple index, identifiers and the codecs.

use tribles::blob::longstring::str_to_blob;
use tribles::blob::longstring::try_from_blob;
use tribles::blob::Blob;
use tribles::hashtribleset::HashTribleSet;
use tribles::id::try_aquire;
use tribles::id::IdOwner;
use tribles::id::OwnedId;
use tribles::schemas::GenId;
use tribles::schemas::UnknownValue;
use tribles::schemas::ValueSchema;
use tribles::trible::id_from_value;
use tribles::trible::id_into_value;
use tribles::trible::Trible;
use tribles::trible::TribleError;
use tribles::tribledb::TribleDB;
use tribles::query::ByteCursor;
use tribles::query::CursorIterator;
use tribles::trie::Trie;
use tribles::valueschemas::fr256::pack_be;
use tribles::valueschemas::fr256::pack_le;
use tribles::valueschemas::fr256::reduce_fraction;
use tribles::valueschemas::fr256::unpack_be;
use tribles::valueschemas::fr256::unpack_le;
use tribles::valueschemas::fr256::FractionError;

fn key(bytes: &[u8]) -> Vec<u8> {
    bytes.to_vec()
}

fn make_id(tag: u8) -> Vec<u8> {
    let mut v = vec![0u8; 16];
    v[0] = tag;
    v[15] = tag.wrapping_mul(3);
    v
}

fn make_val(s: &str) -> Vec<u8> {
    let mut v = s.as_bytes().to_vec();
    assert!(v.len() <= 32);
    v.resize(32, 0);
    v
}

#[test]
fn trie_insert_contains_remove() {
    let t = Trie::new(4);
    assert_eq!(t.count(), 0);
    let k1 = key(&[1, 2, 3, 4]);
    let k2 = key(&[1, 2, 9, 9]);
    let k3 = key(&[7, 7, 7, 7]);
    let t = t.insert(&k1).insert(&k2);
    assert!(t.contains(&k1));
    assert!(t.contains(&k2));
    assert!(!t.contains(&k3));
    assert_eq!(t.count(), 2);
    // inserting an existing key changes nothing
    let t2 = t.insert(&k1);
    assert_eq!(t2.count(), 2);
    // removing an absent key changes nothing
    let t3 = t2.remove(&k3);
    assert_eq!(t3.count(), 2);
    let t4 = t3.remove(&k1);
    assert!(!t4.contains(&k1));
    assert!(t4.contains(&k2));
    assert_eq!(t4.count(), 1);
}

#[test]
fn trie_prefix_queries() {
    let t = Trie::new(4)
        .insert(&key(&[1, 2, 3, 4]))
        .insert(&key(&[1, 2, 9, 9]))
        .insert(&key(&[5, 0, 0, 1]));
    assert!(t.has_prefix(&key(&[1, 2])));
    assert!(t.has_prefix(&key(&[5])));
    assert!(!t.has_prefix(&key(&[9])));
    assert_eq!(t.count_prefix(&key(&[1, 2])), 2);
    assert_eq!(t.count_prefix(&key(&[5])), 1);
    assert_eq!(t.count_prefix(&key(&[])), 3);
    let sufs = t.suffixes(&key(&[1, 2]));
    assert_eq!(sufs.len(), 2);
    assert!(sufs.contains(&key(&[3, 4])));
    assert!(sufs.contains(&key(&[9, 9])));
}

#[test]
fn trie_union_commutative() {
    let a = Trie::new(2).insert(&key(&[1, 1])).insert(&key(&[2, 2]));
    let b = Trie::new(2).insert(&key(&[2, 2])).insert(&key(&[3, 3]));
    let u1 = a.union(&b);
    let u2 = b.union(&a);
    assert_eq!(u1.count(), 3);
    assert_eq!(u2.count(), 3);
    // same content either way round: the canonical structure decides it
    assert!(u1.same_content(&u2));
    assert_eq!(u1.keys(), u2.keys());
}

#[test]
fn trie_union_idempotent() {
    let a = Trie::new(2).insert(&key(&[1, 1])).insert(&key(&[9, 9]));
    let u = a.union(&a);
    assert_eq!(u.count(), 2);
    assert!(u.same_content(&a));
    assert_eq!(u.keys(), a.keys());
}

#[test]
fn trie_insert_order_independent() {
    let keys1 = vec![key(&[4, 4]), key(&[1, 1]), key(&[3, 3]), key(&[2, 2])];
    let keys2 = vec![key(&[2, 2]), key(&[3, 3]), key(&[1, 1]), key(&[4, 4])];
    let t1 = Trie::new(2).insert_all(&keys1);
    let t2 = Trie::new(2).insert_all(&keys2);
    assert_eq!(t1.count(), 4);
    assert!(t1.same_content(&t2));
    assert_eq!(t1.keys(), t2.keys());
}

#[test]
fn trible_fields_round_trip() {
    let e = make_id(1);
    let a = make_id(2);
    let v = make_val("value");
    let t = Trible::new(&e, &a, &v);
    assert_eq!(t.e(), e);
    assert_eq!(t.a(), a);
    assert_eq!(t.v(), v);
}

#[test]
fn trible_raw_values_validation() {
    let e = id_into_value(&make_id(1));
    let a = id_into_value(&make_id(2));
    let v = make_val("value");
    match Trible::new_raw_values(&e, &a, &v) {
        Ok(t) => {
            assert_eq!(t.e(), make_id(1));
            assert_eq!(t.a(), make_id(2));
            assert_eq!(t.v(), v);
        },
        Err(_) => panic!("well-formed slots must be accepted"),
    }
    // an entity slot with a nonzero high half embeds no identifier
    let bad = make_val("not an id");
    match Trible::new_raw_values(&bad, &a, &v) {
        Err(TribleError::EntityNotAnId) => {},
        _ => panic!("malformed entity slot must be rejected"),
    }
    match Trible::new_raw_values(&e, &bad, &v) {
        Err(TribleError::AttributeNotAnId) => {},
        _ => panic!("malformed attribute slot must be rejected"),
    }
}

#[test]
fn id_value_embedding() {
    let id = make_id(7);
    let v = id_into_value(&id);
    assert_eq!(v.len(), 32);
    assert_eq!(&v[..16], &[0u8; 16]);
    assert_eq!(id_from_value(&v), Some(id));
    assert_eq!(id_from_value(&make_val("x")), None);
}

#[test]
fn index_consistent_on_insert_and_union() {
    let t1 = Trible::new(&make_id(1), &make_id(9), &make_val("x"));
    let t2 = Trible::new(&make_id(2), &make_id(9), &make_val("y"));
    let s1 = HashTribleSet::new().insert(&t1);
    let s2 = HashTribleSet::new().insert(&t2);
    let u = s1.union(&s2);
    assert_eq!(u.len(), 2);
    assert!(u.contains(&t1));
    assert!(u.contains(&t2));
    // the same triple twice is one triple
    let again = u.insert(&t1);
    assert_eq!(again.len(), 2);
}

#[test]
fn tribledb_with_batch() {
    let t1 = Trible::new(&make_id(1), &make_id(9), &make_val("x"));
    let t2 = Trible::new(&make_id(2), &make_id(9), &make_val("y"));
    let s = HashTribleSet::new();
    let s = s.with(&vec![t1, t2]);
    assert_eq!(s.len(), 2);
    assert!(s.contains(&Trible::new(&make_id(1), &make_id(9), &make_val("x"))));
}

#[test]
fn acquire_twice_until_released() {
    let mut owner = IdOwner::new();
    let id = make_id(5);
    owner.add(&id);
    assert_eq!(owner.count(), 1);
    let first = try_aquire(&mut owner, &id);
    let handle = match first {
        Some(h) => {
            assert_eq!(h.raw, id);
            h
        },
        None => panic!("an owned identifier must be acquirable"),
    };
    // a second acquisition before release comes back empty-handed
    match try_aquire(&mut owner, &id) {
        None => {},
        Some(_) => panic!("an identifier must not be acquired twice"),
    }
    owner.release(handle);
    match try_aquire(&mut owner, &id) {
        Some(h) => assert_eq!(h.raw, id),
        None => panic!("a released identifier must be acquirable again"),
    }
}

#[test]
fn forced_ownership() {
    let h = OwnedId::force(make_id(3));
    assert_eq!(h.raw, make_id(3));
}

#[test]
fn fraction_round_trip_le() {
    let v = pack_le(-3, 4);
    match unpack_le(&v) {
        Ok((n, d)) => {
            assert_eq!(n, -3);
            assert_eq!(d, 4);
        },
        Err(_) => panic!("a nonzero denominator must decode"),
    }
    let z = pack_le(1, 0);
    match unpack_le(&z) {
        Err(FractionError::ZeroDenominator) => {},
        _ => panic!("a zero denominator must be rejected"),
    }
}

#[test]
fn fraction_round_trip_be() {
    let v = pack_be(7, 2);
    match unpack_be(&v) {
        Ok((n, d)) => {
            assert_eq!(n, 7);
            assert_eq!(d, 2);
        },
        Err(_) => panic!("a nonzero denominator must decode"),
    }
    // the two endiannesses really differ
    assert_ne!(pack_le(7, 2), pack_be(7, 2));
}

#[test]
fn fraction_reduction() {
    match reduce_fraction(2, 4) {
        Ok((n, d)) => {
            assert_eq!((n, d), (1, 2));
        },
        Err(_) => panic!("reduction of 2/4 must succeed"),
    }
    match reduce_fraction(1, -2) {
        Ok((n, d)) => {
            assert_eq!((n, d), (-1, 2));
        },
        Err(_) => panic!("reduction of 1/-2 must succeed"),
    }
    match reduce_fraction(5, 0) {
        Err(FractionError::ZeroDenominator) => {},
        _ => panic!("a zero denominator must be rejected"),
    }
}

#[test]
fn long_string_blob_round_trip() {
    let b = str_to_blob("hello world!");
    assert_eq!(b.to_vec(), "hello world!".as_bytes().to_vec());
    match try_from_blob(b) {
        Ok(s) => assert_eq!(s, "hello world!"),
        Err(_) => panic!("valid text must read back"),
    }
    let bad = Blob::new(vec![0xff, 0xfe, 0x80]);
    match try_from_blob(bad) {
        Err(_) => {},
        Ok(_) => panic!("invalid text must be rejected"),
    }
}

#[test]
fn schema_identifiers_are_distinct() {
    let g = <GenId as ValueSchema>::schema_id();
    let u = <UnknownValue as ValueSchema>::schema_id();
    assert_eq!(g.len(), 16);
    assert_eq!(u.len(), 16);
    assert_ne!(g, u);
}

#[test]
fn cursor_protocol() {
    let t = Trie::new(2)
        .insert(&key(&[1, 2]))
        .insert(&key(&[1, 3]))
        .insert(&key(&[9, 9]));
    let mut c = t.cursor();
    assert_eq!(c.segment_count(), 2);
    let top = c.propose();
    assert!(top.is_set(1));
    assert!(top.is_set(9));
    assert!(!top.is_set(2));
    c.push(1);
    assert_eq!(c.segment_count(), 1);
    let next = c.propose();
    assert!(next.is_set(2));
    assert!(next.is_set(3));
    assert!(!next.is_set(9));
    c.pop();
    assert_eq!(c.segment_count(), 2);
    // a single stored continuation is visible to peek
    let single = Trie::new(2).insert(&key(&[5, 7]));
    let c2 = single.cursor();
    assert_eq!(c2.peek(), Some(5));
}

#[test]
fn cursor_iterator_enumerates() {
    let t = Trie::new(2)
        .insert(&key(&[1, 2]))
        .insert(&key(&[1, 3]))
        .insert(&key(&[9, 9]));
    let mut it = CursorIterator::new(t.cursor());
    let ks = it.collect_keys();
    assert_eq!(ks.len(), 3);
    assert!(ks.contains(&key(&[1, 2])));
    assert!(ks.contains(&key(&[1, 3])));
    assert!(ks.contains(&key(&[9, 9])));
    // an empty trie yields nothing
    let empty = Trie::new(2);
    let mut empty_it = CursorIterator::new(empty.cursor());
    assert_eq!(empty_it.collect_keys().len(), 0);
}
