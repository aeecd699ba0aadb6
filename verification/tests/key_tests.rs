use bonsaidb::key::{Bound, Key, KeyOrdering, QueryKey, Range, lex_compare};

#[test]
fn u64_round_trip() {
    for value in [0u64, 1, 42, 255, 256, u64::MAX - 1, u64::MAX] {
        let encoded = value.as_big_endian_bytes();
        assert_eq!(encoded.len(), 8);
        let decoded = u64::from_big_endian_bytes(encoded.as_slice()).unwrap();
        assert_eq!(decoded, value);
    }
    assert_eq!(42u64.as_big_endian_bytes(), vec![0, 0, 0, 0, 0, 0, 0, 42]);
    assert!(u64::from_big_endian_bytes(&[1, 2, 3]).is_err());
}

#[test]
fn u64_encoding_is_order_preserving() {
    let pairs = [(0u64, 1u64), (1, 255), (255, 256), (256, u64::MAX)];
    for (low, high) in pairs {
        let a = low.as_big_endian_bytes();
        let b = high.as_big_endian_bytes();
        assert!(matches!(lex_compare(&a, &b), KeyOrdering::Less));
        assert!(matches!(lex_compare(&b, &a), KeyOrdering::Greater));
        assert!(matches!(lex_compare(&a, &a), KeyOrdering::Equal));
    }
}

#[test]
fn query_key_round_trip() {
    let matches: QueryKey<u64> = QueryKey::Matches(7);
    let serialized = matches.serialized();
    let decoded: QueryKey<u64> = serialized.deserialized().unwrap();
    assert!(matches!(decoded, QueryKey::Matches(7)));

    let multiple: QueryKey<u64> = QueryKey::Multiple(vec![1, 2, 3]);
    let decoded: QueryKey<u64> = multiple.serialized().deserialized().unwrap();
    match decoded {
        QueryKey::Multiple(keys) => assert_eq!(keys, vec![1, 2, 3]),
        _ => panic!("wrong variant"),
    }

    let bad: QueryKey<Vec<u8>> = QueryKey::Matches(vec![1, 2, 3]);
    assert!(bad.deserialized::<u64>().is_err());
}

#[test]
fn range_serialization_deserializes_each_bound_from_itself() {
    let range: Range<u64> = Range {
        start: Bound::Included(3),
        end: Bound::Excluded(9),
    };
    let wire = range.as_big_endian_bytes();
    let back: Range<u64> = wire.deserialize().unwrap();
    assert!(matches!(back.start, Bound::Included(3)));
    assert!(matches!(back.end, Bound::Excluded(9)));

    let open: Range<u64> = Range {
        start: Bound::Unbounded,
        end: Bound::Included(5),
    };
    let back: Range<u64> = open.as_big_endian_bytes().deserialize().unwrap();
    assert!(matches!(back.start, Bound::Unbounded));
    assert!(matches!(back.end, Bound::Included(5)));
}

#[test]
fn range_and_bound_map() {
    let range: Range<u64> = Range {
        start: Bound::Included(1),
        end: Bound::Excluded(4),
    };
    let doubled = range.map(|v| v * 2);
    assert!(matches!(doubled.start, Bound::Included(2)));
    assert!(matches!(doubled.end, Bound::Excluded(8)));

    let by_ref = doubled.map_ref(|v| v + 1);
    assert!(matches!(by_ref.start, Bound::Included(3)));
    assert!(matches!(by_ref.end, Bound::Excluded(9)));

    let unbounded: Bound<u64> = Bound::Unbounded;
    assert!(matches!(unbounded.map(|v: u64| v + 1), Bound::Unbounded));
    let excluded: Bound<u64> = Bound::Excluded(7);
    assert!(matches!(excluded.map_ref(|v| v - 1), Bound::Excluded(6)));
}
