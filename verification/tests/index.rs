use db_ip::addr::Address;
use db_ip::data::CountryCode;
use db_ip::index::RangeIndex;

fn code(s: &str) -> CountryCode {
    CountryCode::from_str(s).unwrap()
}

#[test]
fn lookup_finds_the_last_start_at_or_before_the_address() {
    let index = RangeIndex::<u32, CountryCode>::from_parts(
        vec![10, 20, 30, 40, 50],
        vec![Some(code("AA")), None, Some(code("BB")), Some(code("CC")), None],
    )
    .unwrap();
    assert_eq!(index.len(), 5);
    assert_eq!(index.lookup(0), None);
    assert_eq!(index.lookup(9), None);
    assert_eq!(index.lookup(10), Some(code("AA")));
    assert_eq!(index.lookup(19), Some(code("AA")));
    assert_eq!(index.lookup(20), None);
    assert_eq!(index.lookup(29), None);
    assert_eq!(index.lookup(30), Some(code("BB")));
    assert_eq!(index.lookup(39), Some(code("BB")));
    assert_eq!(index.lookup(40), Some(code("CC")));
    assert_eq!(index.lookup(49), Some(code("CC")));
    assert_eq!(index.lookup(50), None);
    assert_eq!(index.lookup(u32::MAX), None);
}

#[test]
fn lookup_agrees_with_a_scan_of_the_entries() {
    let starts: Vec<u32> = vec![3, 4, 9, 17, 18, 19, 40, 41, 77];
    let names = ["AA", "BB", "AA", "CC", "DD", "EE", "AA", "BB", "CC"];
    let values: Vec<Option<CountryCode>> = names.iter().map(|n| Some(code(n))).collect();
    let index = RangeIndex::<u32, CountryCode>::from_parts(starts.clone(), values.clone()).unwrap();
    for x in 0..100u32 {
        let mut expected = None;
        for (i, s) in starts.iter().enumerate() {
            if *s <= x {
                expected = values[i];
            }
        }
        assert_eq!(index.lookup(x), expected);
    }
}

#[test]
fn from_parts_refuses_what_is_no_index() {
    let a = Some(code("AA"));
    let b = Some(code("BB"));
    assert!(RangeIndex::<u32, CountryCode>::from_parts(vec![1, 2], vec![a]).is_none());
    assert!(RangeIndex::<u32, CountryCode>::from_parts(vec![2, 1], vec![a, b]).is_none());
    assert!(RangeIndex::<u32, CountryCode>::from_parts(vec![1, 1], vec![a, b]).is_none());
    assert!(RangeIndex::<u32, CountryCode>::from_parts(vec![1, 2], vec![a, a]).is_none());
    assert!(RangeIndex::<u32, CountryCode>::from_parts(vec![1, 2], vec![None, None]).is_none());
    assert!(RangeIndex::<u32, CountryCode>::from_parts(vec![1, 2, 3], vec![a, b, b]).is_none());
    assert!(RangeIndex::<u32, CountryCode>::from_parts(vec![1, 2, 3], vec![a, b, a]).is_some());
    assert!(RangeIndex::<u32, CountryCode>::from_parts(vec![1, 2], vec![a, None]).is_some());
    assert!(RangeIndex::<u32, CountryCode>::from_parts(vec![], vec![]).is_some());
}

#[test]
fn a_new_index_is_empty() {
    let index = RangeIndex::<u128, CountryCode>::new();
    assert_eq!(index.len(), 0);
    assert_eq!(index.lookup(7), None);
}

#[test]
fn addresses_know_their_successor() {
    assert_eq!(0u32.successor(), Some(1));
    assert_eq!(u32::MAX.successor(), None);
    assert_eq!((u32::MAX - 1).successor(), Some(u32::MAX));
    assert_eq!(u128::MAX.successor(), None);
    assert_eq!(41u128.successor(), Some(42));
    assert_eq!(<u32 as Address>::zero(), 0);
    assert!(3u32.before(&4));
    assert!(!4u32.before(&4));
    assert!(!5u128.before(&4));
    assert_eq!(<u32 as Address>::width_bytes(), 4);
    assert_eq!(<u128 as Address>::width_bytes(), 16);
    assert_eq!(7u32.widen(), 7u128);
    assert_eq!(<u32 as Address>::narrow(9), 9u32);
}
