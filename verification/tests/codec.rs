use rsure::escape::{escape, unescape};
use rsure::lines::{join, lex_lt_bytes, split};
use rsure::store::{dec_to_u64, u64_to_dec};

#[test]
fn escape_plain_passes() {
    let v: Vec<u8> = b"abc09AZ".to_vec();
    let e = escape(&v);
    assert_eq!(e, b"abc09AZ".to_vec());
}

#[test]
fn escape_specials() {
    let v: Vec<u8> = b"a b=c\\d".to_vec();
    let e = escape(&v);
    assert_eq!(e, b"a=20b=3dc=5cd".to_vec());
}

#[test]
fn escape_round_trip_weird_name() {
    let v: Vec<u8> = b"weird=name with\ttab".to_vec();
    let e = escape(&v);
    let u = unescape(&e).expect("escaped form must decode");
    assert_eq!(u, v);
}

#[test]
fn escape_round_trip_all_bytes() {
    let mut v: Vec<u8> = Vec::new();
    let mut b: u16 = 0;
    while b < 256 {
        v.push(b as u8);
        b += 1;
    }
    let e = escape(&v);
    let u = unescape(&e).expect("escaped form must decode");
    assert_eq!(u, v);
}

#[test]
fn unescape_rejects_truncated() {
    assert!(unescape(&b"abc=4".to_vec()).is_none());
    assert!(unescape(&b"=zz".to_vec()).is_none());
}

#[test]
fn decimal_round_trip() {
    let d = u64_to_dec(1234567890123456789);
    assert_eq!(d, b"1234567890123456789".to_vec());
    assert_eq!(dec_to_u64(&d), Some(1234567890123456789));
    assert_eq!(u64_to_dec(0), b"0".to_vec());
    assert_eq!(dec_to_u64(&b"0".to_vec()), Some(0));
    assert_eq!(dec_to_u64(&b"007".to_vec()), None);
    assert_eq!(dec_to_u64(&b"12a".to_vec()), None);
    assert_eq!(dec_to_u64(&b"".to_vec()), None);
}

#[test]
fn split_join_round_trip() {
    let parts: Vec<Vec<u8>> = vec![b"one".to_vec(), b"".to_vec(), b"three".to_vec()];
    let j = join(&parts, 0x20);
    assert_eq!(j, b"one  three".to_vec());
    let s = split(&j, 0x20);
    assert_eq!(s, parts);
}

#[test]
fn lex_order() {
    assert!(lex_lt_bytes(&b"a".to_vec(), &b"b".to_vec()));
    assert!(lex_lt_bytes(&b"a".to_vec(), &b"ab".to_vec()));
    assert!(!lex_lt_bytes(&b"b".to_vec(), &b"ab".to_vec()));
    assert!(!lex_lt_bytes(&b"a".to_vec(), &b"a".to_vec()));
}
