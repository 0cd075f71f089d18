use bytestream::LogicLong;
use bytestream::LogicLongError;

#[test]
fn test_new() {
    LogicLong::new(0_u32, 1_u32);
}

#[test]
fn test_normal() {
    "#2PP".parse::<LogicLong>().unwrap();
}

#[test]
fn test_no_hashtag() {
    "80CY2LC2R".parse::<LogicLong>().unwrap();
}

#[test]
#[should_panic]
fn test_invalid() {
    "#willnotworkandlow/high=0,tag=\"\"".parse::<LogicLong>().unwrap();
}

#[test]
fn to_tag_zero_pair() {
    // combine = 0 produces no digits: only the canonical `#` remains
    let ll = LogicLong::new(0, 0);
    assert_eq!(ll.tag, "#");
}

#[test]
fn to_tag_alphabet_vectors() {
    // single digits straight from the alphabet table
    assert_eq!(LogicLong::new(1, 0).tag, "#2");
    assert_eq!(LogicLong::new(2, 0).tag, "#8");
    assert_eq!(LogicLong::new(13, 0).tag, "#V");
    // combine = 0 + 1 * 256 = 256 = 1*14^2 + 4*14 + 4
    assert_eq!(LogicLong::new(0, 1).tag, "#2PP");
}

#[test]
fn parse_known_tag() {
    let ll = "#2PP".parse::<LogicLong>().unwrap();
    assert_eq!(ll.high, 0);
    assert_eq!(ll.low, 1);
    assert_eq!(ll.tag, "#2PP");
}

#[test]
fn parse_is_case_insensitive_and_strips() {
    let a = "#2pp".parse::<LogicLong>().unwrap();
    let b = " #2-P p!".parse::<LogicLong>().unwrap();
    assert_eq!(a.high, 0);
    assert_eq!(a.low, 1);
    assert_eq!(b.high, 0);
    assert_eq!(b.low, 1);
}

#[test]
fn parse_maps_letter_o_to_zero() {
    let a = "#O".parse::<LogicLong>().unwrap();
    let b = "#0".parse::<LogicLong>().unwrap();
    assert_eq!(a.high, b.high);
    assert_eq!(a.low, b.low);
}

#[test]
fn tag_pair_round_trips() {
    // every pair with high below 256 survives the trip through its tag
    for &(high, low) in &[(0u32, 0u32), (0, 1), (255, 0), (100, 0xFFFFFFFF), (7, 123456), (255, 0xFFFFFFFF)] {
        let tag = LogicLong::new(high, low).tag;
        let back = tag.parse::<LogicLong>().unwrap();
        assert_eq!(back.high, high);
        assert_eq!(back.low, low);
    }
}

#[test]
fn canonical_tag_round_trips_as_string() {
    // for a syntactically valid tag, re-deriving the tag from the parsed
    // pair gives the canonicalized input back
    for t in &["#2PP", "80CY2LC2R", "#grjc", "#8o8"] {
        let ll = t.parse::<LogicLong>().unwrap();
        let fixed = LogicLong::fix_tag(t);
        assert_eq!(LogicLong::new(ll.high, ll.low).tag, fixed);
    }
}

#[test]
fn fix_tag_is_idempotent() {
    for t in &["", "#2PP", "2pp", "o0O", "hello world!", "#willnotwork", "##9#9"] {
        let once = LogicLong::fix_tag(t);
        let twice = LogicLong::fix_tag(&once);
        assert_eq!(once, twice);
    }
}

#[test]
fn fix_tag_upcases_strips_and_maps() {
    assert_eq!(LogicLong::fix_tag("#2pp"), "#2PP");
    assert_eq!(LogicLong::fix_tag(" 8 o/c y "), "#80CY");
    assert_eq!(LogicLong::fix_tag(""), "#");
}

#[test]
fn is_valid_tag_accepts_and_rejects() {
    assert!(LogicLong::is_valid_tag("#2PP"));
    assert!(LogicLong::is_valid_tag("#2pp"));
    assert!(LogicLong::is_valid_tag("#oO0289PYLQGRJCUV"));
    assert!(!LogicLong::is_valid_tag("#"));
    assert!(!LogicLong::is_valid_tag("2PP"));
    assert!(!LogicLong::is_valid_tag("#2PA"));
    assert!(!LogicLong::is_valid_tag(""));
}

#[test]
fn parse_rejects_bad_character_with_fixed_tag() {
    // 'W' survives canonicalization but is outside the alphabet
    match "#W".parse::<LogicLong>() {
        Err(LogicLongError::InvalidTag(t)) => assert_eq!(t, "#W"),
        other => panic!("expected InvalidTag, got {:?}", other),
    }
}

#[test]
fn parse_rejects_oversized_value() {
    // far more digits than any component pair can stand for
    match "#VVVVVVVVVVVVVVVVVVVV".parse::<LogicLong>() {
        Err(LogicLongError::InvalidTag(_)) => {}
        other => panic!("expected InvalidTag, got {:?}", other),
    }
}

#[test]
fn parse_empty_gives_zero_pair() {
    // canonicalization of the empty string leaves only `#`, which holds
    // no digits and so stands for the zero pair
    let ll = "".parse::<LogicLong>().unwrap();
    assert_eq!(ll.high, 0);
    assert_eq!(ll.low, 0);
    assert_eq!(ll.tag, "#");
}

#[test]
fn random_respects_bound() {
    for _ in 0..50 {
        let ll = LogicLong::random(100);
        assert!(ll.high < 100);
        assert!(LogicLong::is_valid_tag(&ll.tag) || ll.tag == "#");
        // the derived tag parses back to the same pair
        let back = ll.tag.parse::<LogicLong>().unwrap();
        assert_eq!(back.high, ll.high);
        assert_eq!(back.low, ll.low);
    }
}

#[test]
fn equality_and_order_follow_the_pair() {
    let a = LogicLong::new(1, 2);
    let b = LogicLong::new(1, 2);
    let c = LogicLong::new(2, 2);
    assert_eq!(a, b);
    assert!(a < c);
}
