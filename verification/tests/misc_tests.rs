use std::collections::VecDeque;
use timetable::bits::BitArray;
use timetable::query::{Organization, Semister, SubjectQuery};
use timetable::response::{parse_credit, parse_u8_decimal};
use timetable::share::make_query_string;

#[test]
fn test_bitarray() {
    let mut a = BitArray::zero();
    a.set(10, true);
    println!("{:?}", &a);
    assert_eq!(a.get(10), true);
    assert_eq!(a.get(9), false);
    assert_eq!(a.get(11), false);
    a.set(10, false);
    a.set(9, true);
    println!("{:?}", &a);
    assert_eq!(a.get(10), false);
    assert_eq!(a.get(9), true);
    assert_eq!(a.get(11), false);
    a.set(101, true);
    a.set(0, true);
    println!("{:?}", &a);
    assert_eq!(a.get(100), false);
    assert_eq!(a.get(101), true);
    assert_eq!(a.get(102), false);
}

#[test]
fn test_drain() {
    let mut v = VecDeque::new();
    v.push_back(1);
    v.push_back(2);
    v.push_back(3);
    v.push_back(4);
    v.push_back(5);
    v.push_back(1);
    v.push_back(2);
    v.push_back(3);
    v.push_back(4);
    v.push_back(5);
    v.push_back(1);
    v.push_back(2);
    v.push_back(3);
    v.push_back(4);
    v.push_back(5);

    for _idx in 0..v.len() {
        match v.pop_front() {
            Some(t) => {
                println!("{:?}", &t);
                v.push_back(t + 10);
            }
            None => break,
        }
    }
    println!("{:?}", v);
}

#[test]
fn bitarray_from_words_keeps_the_bits() {
    let a = BitArray::from([0b100u64, 0, 0, 1u64 << 63]);
    assert!(a.get(2));
    assert!(!a.get(3));
    assert!(a.get(255));
}

#[test]
fn masks_are_disjoint_exactly_without_shared_bits() {
    let mut a = BitArray::zero();
    let mut b = BitArray::zero();
    a.set(7, true);
    b.set(8, true);
    assert!(a.disjoint(&b));
    b.set(7, true);
    assert!(!a.disjoint(&b));
}

#[test]
fn share_keys_have_seven_charset_characters() {
    let charset = "ABCDEFGHIJKLMNOPQRSTUVWXYZabcdefghijklmnopqrstuvwxyz0123456789)(*^$@!~";
    for _ in 0..20 {
        let key = make_query_string();
        assert_eq!(key.chars().count(), 7);
        assert!(key.chars().all(|c| charset.contains(c)));
    }
}

#[test]
fn query_builder_sets_term_and_organization() {
    let q = SubjectQuery::new(2019).fall().undergraduate();
    assert_eq!(q.year, 2019);
    assert_eq!(q.semister, Semister::Fall);
    assert_eq!(q.organization, Organization::UnderGraduate);
    assert_eq!(q.semister_code(), "CMN17.20");
    assert_eq!(q.organization_code(), "CMN12.03");

    let g = SubjectQuery::new(2020).winter().graduate();
    assert_eq!(g.semister_code(), "CMN17.21");
    assert_eq!(g.organization_code(), "CMN12.02");
    let u = SubjectQuery::new(2020).spring().underGraduate().summer();
    assert_eq!(u.semister_code(), "CMN17.11");
    assert_eq!(u.organization_code(), "CMN12.03");
}

#[test]
fn decimal_parsing_accepts_bytes_only() {
    assert_eq!(parse_u8_decimal("31"), Ok(31));
    assert_eq!(parse_u8_decimal("007"), Ok(7));
    assert_eq!(parse_u8_decimal("255"), Ok(255));
    assert!(parse_u8_decimal("256").is_err());
    assert!(parse_u8_decimal("").is_err());
    assert!(parse_u8_decimal("12a").is_err());
}

#[test]
fn credit_parsing_keeps_the_whole_part() {
    assert_eq!(parse_credit("3"), Ok(3));
    assert_eq!(parse_credit("3.0"), Ok(3));
    assert_eq!(parse_credit("1.5"), Ok(1));
    assert_eq!(parse_credit("3."), Ok(3));
    assert_eq!(parse_credit("400.0"), Ok(255));
    assert!(parse_credit(".5").is_err());
    assert!(parse_credit("abc").is_err());
    assert!(parse_credit("1.x").is_err());
}
