use sdat2img_rs::Error;
use sdat2img_rs::Range;
use sdat2img_rs::RangeSet;

#[test]
fn parse_valid_pairs_in_order() {
    let rs = RangeSet::parse(b"4,0,1,2,3").unwrap();
    let pairs = rs.pairs();
    assert_eq!(pairs.len(), 2);
    assert_eq!(pairs[0].start(), 0);
    assert_eq!(pairs[0].end(), 1);
    assert_eq!(pairs[1].start(), 2);
    assert_eq!(pairs[1].end(), 3);
}

#[test]
fn parse_preserves_declaration_order_without_sorting() {
    let rs = RangeSet::parse(b"6,8,9,2,4,8,9").unwrap();
    let pairs = rs.pairs();
    assert_eq!(pairs.len(), 3);
    assert_eq!(pairs[0].inner(), (8, 9));
    assert_eq!(pairs[1].inner(), (2, 4));
    assert_eq!(pairs[2].inner(), (8, 9));
}

#[test]
fn parse_round_trip_rederives_count_and_pairs() {
    let text = b"4,10,12,30,31";
    let rs = RangeSet::parse(text).unwrap();
    let count = 2 * rs.pairs().len() as u64;
    let mut rederived = format!("{}", count);
    for r in rs.pairs() {
        rederived.push_str(&format!(",{},{}", r.start(), r.end()));
    }
    assert_eq!(rederived.as_bytes(), text);
}

#[test]
fn parse_odd_count_fails() {
    let e = RangeSet::parse(b"3,0,1,2").unwrap_err();
    assert!(matches!(e, Error::MalformedRangeSet));
}

#[test]
fn parse_mismatched_count_fails() {
    let e = RangeSet::parse(b"4,0,1").unwrap_err();
    assert!(matches!(e, Error::MalformedRangeSet));
    let e = RangeSet::parse(b"2,0,1,2,3").unwrap_err();
    assert!(matches!(e, Error::MalformedRangeSet));
}

#[test]
fn parse_zero_count_fails() {
    let e = RangeSet::parse(b"0,1,2").unwrap_err();
    assert!(matches!(e, Error::MalformedRangeSet));
}

#[test]
fn parse_too_few_tokens_fails() {
    assert!(matches!(
        RangeSet::parse(b"").unwrap_err(),
        Error::MalformedRangeSet
    ));
    assert!(matches!(
        RangeSet::parse(b"2,1").unwrap_err(),
        Error::MalformedRangeSet
    ));
}

#[test]
fn parse_non_numeric_token_fails() {
    let e = RangeSet::parse(b"2,a,1").unwrap_err();
    assert!(matches!(e, Error::MalformedRangeSet));
    let e = RangeSet::parse(b"2,0,").unwrap_err();
    assert!(matches!(e, Error::MalformedRangeSet));
}

#[test]
fn parse_value_above_u64_fails() {
    let e = RangeSet::parse(b"2,0,18446744073709551616").unwrap_err();
    assert!(matches!(e, Error::MalformedRangeSet));
}

#[test]
fn parse_u64_max_bound_is_accepted() {
    let rs = RangeSet::parse(b"2,0,18446744073709551615").unwrap();
    assert_eq!(rs.pairs()[0].end(), u64::MAX);
}

#[test]
fn parse_degenerate_range_fails() {
    let e = RangeSet::parse(b"2,5,5").unwrap_err();
    assert!(matches!(e, Error::MalformedRangeSet));
    let e = RangeSet::parse(b"2,3,1").unwrap_err();
    assert!(matches!(e, Error::MalformedRangeSet));
}

#[test]
fn range_accessors() {
    let r = Range::new(2, 5);
    assert_eq!(r.start(), 2);
    assert_eq!(r.end(), 5);
    assert_eq!(r.inner(), (2, 5));
    assert_eq!(r.len(), 3);
}

#[test]
fn range_set_new_and_iter() {
    let rs = RangeSet::new(vec![Range::new(0, 1), Range::new(4, 6)]);
    assert_eq!(rs.pairs().len(), 2);
    let mut it = rs.iter();
    let first = it.next().unwrap();
    assert_eq!(first.inner(), (0, 1));
    let second = it.next().unwrap();
    assert_eq!(second.inner(), (4, 6));
    assert!(it.next().is_none());
}
