use lexorank::{increment_char, decrement_char, Bucket, LexoRank, Rank};

#[test]
fn roundtrip_parse_then_serialize() {
    let strings = [
        "0|1", "1|01", "2|zzz", "0|2a", "2|abc", "1|z40100001", "0|a0b0c1", "2|01001",
    ];

    for s in strings {
        let parsed = LexoRank::from_string(s).unwrap();
        assert_eq!(parsed.serialize(), s);
    }
}

#[test]
fn roundtrip_serialize_then_parse() {
    let pairs = [(0, "2a"), (1, "01"), (2, "abc")];

    for (bucket, value) in pairs {
        let key = LexoRank::new(Bucket::new(bucket).unwrap(), Rank::new(value).unwrap());
        let reparsed = LexoRank::from_string(&key.serialize()).unwrap();
        assert_eq!(reparsed, key);
    }
}

#[test]
fn rank_validation_rejects() {
    let bad = ["", "0", "a0", "12B", "C", "Á", "a b", "a|b", "1-2", "z0", "00"];

    for value in bad {
        assert!(Rank::new(value).is_err(), "{} was accepted", value);
    }
}

#[test]
fn rank_validation_accepts() {
    let good = ["1", "z", "01", "0z", "a", "9", "z40100001", "00001"];

    for value in good {
        let rank = Rank::new(value).unwrap();
        assert_eq!(rank.value(), value);
    }
}

#[test]
fn bucket_validation_rejects() {
    for value in [3, 4, 10, 100, 255] {
        assert!(Bucket::new(value).is_err());
    }
    for value in [0, 1, 2] {
        assert_eq!(Bucket::new(value).unwrap().value(), value);
    }
}

#[test]
fn composite_validation_rejects() {
    let bad = [
        "", "abc", "0", "|", "0|", "|a", "0|a0", "4|abc", "3|1", "300|1", "0|a|b", "a|1",
        "+1|a", "0|A", "10|1", "0 |1",
    ];

    for value in bad {
        assert!(LexoRank::from_string(value).is_err(), "{} was accepted", value);
    }
}

#[test]
fn bucket_error_message() {
    let err = Bucket::new(7).unwrap_err();
    assert_eq!(
        err.0,
        "LexoRank bucket value must be between 0 and 2 inclusive. Found: 7"
    );
    let err = Bucket::new(47).unwrap_err();
    assert_eq!(
        err.message(),
        "LexoRank bucket value must be between 0 and 2 inclusive. Found: 47"
    );
    let err = Bucket::new(214).unwrap_err();
    assert_eq!(
        err.message(),
        "LexoRank bucket value must be between 0 and 2 inclusive. Found: 214"
    );
}

#[test]
fn rank_error_message() {
    let err = Rank::new("B|0").unwrap_err();
    assert_eq!(
        err.message(),
        "Lexorank value must only include 0-9 and a-z and must not end with 0. Found: B|0"
    );
    let err = Rank::new("").unwrap_err();
    assert_eq!(
        err.message(),
        "Lexorank value must only include 0-9 and a-z and must not end with 0. Found: "
    );
}

#[test]
fn composite_error_message() {
    let err = LexoRank::from_string("nonsense").unwrap_err();
    assert_eq!(
        err.message(),
        "Cannot create LexoRank from invalid string. Found: nonsense"
    );
    // A bucket segment no byte can hold, or one that is not a plain run of
    // digits, is a structural failure.
    let err = LexoRank::from_string("300|1").unwrap_err();
    assert_eq!(
        err.message(),
        "Cannot create LexoRank from invalid string. Found: 300|1"
    );
    let err = LexoRank::from_string("+1|a").unwrap_err();
    assert_eq!(
        err.message(),
        "Cannot create LexoRank from invalid string. Found: +1|a"
    );
}

#[test]
fn parse_propagates_component_errors() {
    let err = LexoRank::from_string("4|abc").unwrap_err();
    assert_eq!(
        err.message(),
        "LexoRank bucket value must be between 0 and 2 inclusive. Found: 4"
    );
    let err = LexoRank::from_string("100|abc").unwrap_err();
    assert_eq!(
        err.message(),
        "LexoRank bucket value must be between 0 and 2 inclusive. Found: 100"
    );
    let err = LexoRank::from_string("0|a0").unwrap_err();
    assert_eq!(
        err.message(),
        "Lexorank value must only include 0-9 and a-z and must not end with 0. Found: a0"
    );
    let err = LexoRank::from_string("0|a|b").unwrap_err();
    assert_eq!(
        err.message(),
        "Lexorank value must only include 0-9 and a-z and must not end with 0. Found: a|b"
    );
}

#[test]
fn parse_accepts_integer_bucket_segments() {
    let key = LexoRank::from_string("00|1").unwrap();
    assert_eq!(key.bucket().value(), 0);
    assert_eq!(key.rank().value(), "1");
    assert_eq!(key.serialize(), "0|1");

    let key = LexoRank::from_string("002|x").unwrap();
    assert_eq!(key.bucket().value(), 2);
    assert_eq!(key.rank().value(), "x");
    assert_eq!(key.serialize(), "2|x");
}

#[test]
fn conversions() {
    let bucket: Bucket = 2u8.try_into().unwrap();
    assert_eq!(bucket.value(), 2);
    let rank: Rank = "abc".try_into().unwrap();
    assert_eq!(rank.value(), "abc");
    let err = lexorank::ParseError::from("boom");
    assert_eq!(err.message(), "boom");
}

#[test]
fn char_increment_and_decrement() {
    assert_eq!(increment_char(&'0'), Some('1'));
    assert_eq!(increment_char(&'8'), Some('9'));
    assert_eq!(increment_char(&'9'), Some('a'));
    assert_eq!(increment_char(&'a'), Some('b'));
    assert_eq!(increment_char(&'y'), Some('z'));
    assert_eq!(increment_char(&'z'), None);
    assert_eq!(decrement_char(&'0'), None);
    assert_eq!(decrement_char(&'1'), Some('0'));
    assert_eq!(decrement_char(&'a'), Some('9'));
    assert_eq!(decrement_char(&'z'), Some('y'));
}

#[test]
fn bucket_rotation_cycles() {
    for value in [0, 1, 2] {
        let bucket = Bucket::new(value).unwrap();
        assert_eq!(bucket.next().next().next(), bucket);
        assert_eq!(bucket.prev().prev().prev(), bucket);
        assert_eq!(bucket.next().prev(), bucket);
        assert_eq!(bucket.prev().next(), bucket);
    }
}

#[test]
fn successor_and_predecessor_are_inverses() {
    // Predecessor undoes successor wherever the successor keeps the length,
    // that is, the rank does not end in 'z'.
    for value in ["1", "9", "a", "123", "00001", "zy", "z9"] {
        let rank = Rank::new(value).unwrap();
        assert_eq!(rank.next().prev(), rank);
    }
    // Successor undoes predecessor wherever the predecessor keeps the
    // length, that is, the rank does not end in '1'.
    for value in ["2", "a", "z", "129", "0a", "zz"] {
        let rank = Rank::new(value).unwrap();
        assert_eq!(rank.prev().next(), rank);
    }
}

#[test]
fn successor_sorts_after_and_predecessor_before() {
    for value in ["1", "9", "a", "z", "zz", "123", "0101", "z40100001"] {
        let rank = Rank::new(value).unwrap();
        assert!(rank < rank.next());
        assert!(rank.prev() < rank);
    }
}

#[test]
fn midpoint_sorts_strictly_between() {
    let pairs = [
        ("1", "z"), ("1", "11"), ("a", "a1"), ("z4", "z41"), ("0101", "11"),
        ("azz", "b"), ("1", "2"), ("y", "z1"),
    ];

    for (a, b) in pairs {
        let a = Rank::new(a).unwrap();
        let b = Rank::new(b).unwrap();
        let mid = a.between(&b).unwrap();
        let (lo, hi) = if a < b { (&a, &b) } else { (&b, &a) };
        assert!(lo < &mid, "{:?} not below {:?}", lo, mid);
        assert!(&mid < hi, "{:?} not above {:?}", mid, hi);
        assert_eq!(mid, b.between(&a).unwrap());
    }
}

#[test]
fn midpoint_keeps_left_bucket() {
    let left: LexoRank = "2|a".try_into().unwrap();
    let right: LexoRank = "0|c".try_into().unwrap();
    let mid = left.between(&right).unwrap();
    assert_eq!(mid.bucket().value(), 2);
    assert_eq!(mid.rank().value(), "b");
}

#[test]
fn serialize_shape() {
    let key = LexoRank::new(Bucket::new(1).unwrap(), Rank::new("0a1").unwrap());
    assert_eq!(key.serialize(), "1|0a1");
    assert_eq!(key.bucket().value(), 1);
    assert_eq!(key.rank().value(), "0a1");
}
