use pippin::ids::{EltId, PartId};
use pippin::sum::Sum;

fn hex(s: &str) -> Vec<u8> {
    (0..s.len() / 2).map(|i| u8::from_str_radix(&s[2 * i..2 * i + 2], 16).unwrap()).collect()
}

#[test]
fn digest_of_abc() {
    // the SHA-256 test vector for "abc"
    let expected = hex("ba7816bf8f01cfea414140de5dae2223b00361a396177a9cb410ff61f20015ad");
    assert_eq!(Sum::calculate(b"abc").to_bytes(), expected);
    assert_ne!(Sum::calculate(b"abc").to_bytes()[..3], b"abc"[..]);
}

#[test]
fn element_sum_covers_identifier_and_payload() {
    let id = PartId::from_num(7).elt_id(0);
    assert_eq!(id.id, 7 << 24);
    let expected = hex("CF92ED8C06E353CA697C0C4EDDB341E0F8C576EDC4564F5EAD8DF71E6BB297CB");
    assert_eq!(Sum::elt_sum(id.id, b"hello").to_bytes(), expected);
    assert_ne!(Sum::elt_sum(id.id + 1, b"hello"), Sum::elt_sum(id.id, b"hello"));
}

#[test]
fn load_and_write_are_inverse() {
    let bytes: Vec<u8> = (0u8..32).map(|x| x.wrapping_mul(37).wrapping_add(11)).collect();
    let sum = Sum::load(&bytes);
    assert_eq!(sum.w0, u64::from_be_bytes(bytes[0..8].try_into().unwrap()));
    assert_eq!(sum.w3, u64::from_be_bytes(bytes[24..32].try_into().unwrap()));
    assert_eq!(sum.to_bytes(), bytes);
    let mut out = vec![0xAAu8];
    sum.write(&mut out);
    assert_eq!(out.len(), 33);
    assert_eq!(&out[1..], &bytes[..]);
    let mut longer = vec![1u8, 2, 3];
    longer.extend_from_slice(&bytes);
    assert_eq!(Sum::load_at(&longer, 3), sum);
    assert!(sum.eq_at(&longer, 3));
    assert!(!sum.eq_at(&longer, 2));
}

#[test]
fn xor_of_sums() {
    let a = Sum::calculate(b"a");
    let b = Sum::calculate(b"b");
    let c = Sum::calculate(b"c");
    assert_eq!(Sum::zero(), Sum { w0: 0, w1: 0, w2: 0, w3: 0 });
    assert_eq!(a.xor(&Sum::zero()), a);
    assert_eq!(a.xor(&a), Sum::zero());
    assert_eq!(a.xor(&b), b.xor(&a));
    assert_eq!(a.xor(&b).xor(&c), a.xor(&b.xor(&c)));
    let x = Sum { w0: 0xF0, w1: 1, w2: 0, w3: u64::MAX };
    let y = Sum { w0: 0x3C, w1: 1, w2: 7, w3: 1 };
    assert_eq!(x.xor(&y), Sum { w0: 0xCC, w1: 0, w2: 7, w3: u64::MAX - 1 });
}

#[test]
fn hexadecimal_digits() {
    let bytes: Vec<u8> = (0u8..32).map(|x| x * 8 + 3).collect();
    let sum = Sum::load(&bytes);
    let plain = "030B131B232B333B434B535B636B737B838B939BA3ABB3BBC3CBD3DBE3EBF3FB";
    assert_eq!(sum.as_string(false), plain);
    assert_eq!(
        sum.as_string(true),
        "030B131B 232B333B 434B535B 636B737B 838B939B A3ABB3BB C3CBD3DB E3EBF3FB"
    );
    assert!(sum.matches_string(b""));
    assert!(sum.matches_string(b"0"));
    assert!(sum.matches_string(b"030B1"));
    assert!(sum.matches_string(plain.as_bytes()));
    assert!(!sum.matches_string(b"030b1"));
    assert!(!sum.matches_string(b"13"));
    let mut too_long = plain.as_bytes().to_vec();
    too_long.push(b'0');
    assert!(!sum.matches_string(&too_long));
}

#[test]
fn order_of_sums() {
    let a = Sum { w0: 1, w1: 9, w2: 9, w3: 9 };
    let b = Sum { w0: 2, w1: 0, w2: 0, w3: 0 };
    let c = Sum { w0: 2, w1: 0, w2: 0, w3: 1 };
    assert!(a.is_before(&b));
    assert!(b.is_before(&c));
    assert!(!c.is_before(&b));
    assert!(!a.is_before(&a));
}

#[test]
fn identifiers() {
    let p = PartId::from_num(1681);
    assert_eq!(p.into_num(), 1681);
    assert_eq!(p.into_raw(), 1681 << 24);
    let e = p.elt_id(3);
    assert_eq!(e.into_raw(), (1681 << 24) + 3);
    assert_eq!(e.seq_num(), 3);
    assert_eq!(e.part_bits(), 1681 << 24);
    assert!(p.owns(e));
    assert!(!PartId::from_num(1680).owns(e));
    assert_eq!(PartId::try_from(1681 << 24), Some(p));
    assert_eq!(PartId::try_from(0), None);
    assert_eq!(PartId::try_from((1681 << 24) + 1), None);
    let top = PartId::from_num(0xFF_FFFF_FFFF);
    assert_eq!(top.elt_id(0xFF_FFFF).into_raw(), u64::MAX);
    assert_eq!(EltId::from_raw(u64::MAX).part_bits(), top.into_raw());
}
