use db_ip::builder::RangeIndexBuilder;
use db_ip::data::CountryCode;
use db_ip::error::Error;
use db_ip::index::RangeIndex;

fn code(s: &str) -> CountryCode {
    CountryCode::from_str(s).unwrap()
}

fn entries(index: &RangeIndex<u32, CountryCode>) -> Vec<(u32, Option<CountryCode>)> {
    index.starts().iter().cloned().zip(index.values().iter().cloned()).collect()
}

#[test]
fn neighbours_of_equal_value_are_merged() {
    let mut b = RangeIndexBuilder::<u32, CountryCode>::new();
    assert_eq!(b.push(0, 9, Some(10), code("AU")), Ok(()));
    assert_eq!(b.push(10, 19, Some(20), code("AU")), Ok(()));
    assert_eq!(b.push(20, 29, Some(30), code("CN")), Ok(()));
    let index = b.finish();
    assert_eq!(index.len(), 2);
    assert_eq!(entries(&index), vec![(0, Some(code("AU"))), (20, Some(code("CN")))]);
    assert_eq!(index.lookup(0), Some(code("AU")));
    assert_eq!(index.lookup(19), Some(code("AU")));
    assert_eq!(index.lookup(20), Some(code("CN")));
    assert_eq!(index.lookup(29), Some(code("CN")));
}

#[test]
fn a_gap_between_different_values_is_recorded() {
    let mut b = RangeIndexBuilder::<u32, CountryCode>::new();
    assert_eq!(b.push(0, 9, Some(10), code("AU")), Ok(()));
    assert_eq!(b.push(20, 29, Some(30), code("CN")), Ok(()));
    let index = b.finish();
    assert_eq!(index.len(), 3);
    assert_eq!(
        entries(&index),
        vec![(0, Some(code("AU"))), (10, None), (20, Some(code("CN")))]
    );
    assert_eq!(index.lookup(9), Some(code("AU")));
    assert_eq!(index.lookup(10), None);
    assert_eq!(index.lookup(15), None);
    assert_eq!(index.lookup(19), None);
    assert_eq!(index.lookup(20), Some(code("CN")));
}

#[test]
fn a_range_of_the_last_value_is_absorbed_across_a_gap() {
    let mut b = RangeIndexBuilder::<u32, CountryCode>::new();
    assert_eq!(b.push(0, 9, Some(10), code("AU")), Ok(()));
    assert_eq!(b.push(20, 29, Some(30), code("AU")), Ok(()));
    let index = b.finish();
    assert_eq!(entries(&index), vec![(0, Some(code("AU")))]);
    assert_eq!(index.lookup(15), Some(code("AU")));
    assert_eq!(index.lookup(25), Some(code("AU")));
}

#[test]
fn unclaimed_addresses_before_the_first_range_have_no_value() {
    let mut b = RangeIndexBuilder::<u32, CountryCode>::new();
    assert_eq!(b.push(100, 199, Some(200), code("DE")), Ok(()));
    let index = b.finish();
    assert_eq!(entries(&index), vec![(0, None), (100, Some(code("DE")))]);
    assert_eq!(index.lookup(0), None);
    assert_eq!(index.lookup(99), None);
    assert_eq!(index.lookup(100), Some(code("DE")));
}

#[test]
fn the_last_entry_reaches_to_the_end_of_the_family() {
    let mut b = RangeIndexBuilder::<u32, CountryCode>::new();
    assert_eq!(b.push(0, 9, Some(10), code("AU")), Ok(()));
    let index = b.finish();
    assert_eq!(index.lookup(10), Some(code("AU")));
    assert_eq!(index.lookup(u32::MAX), Some(code("AU")));
}

#[test]
fn a_range_that_reaches_back_is_refused() {
    let mut b = RangeIndexBuilder::<u32, CountryCode>::new();
    assert_eq!(b.push(0, 9, Some(10), code("AU")), Ok(()));
    assert_eq!(b.push(9, 19, Some(20), code("AU")), Err(Error::AddrOutOfOrder));
    assert_eq!(b.push(5, 19, Some(20), code("CN")), Err(Error::AddrOutOfOrder));
    assert_eq!(b.push(0, 0, Some(1), code("CN")), Err(Error::AddrOutOfOrder));
    assert_eq!(b.push(10, 19, Some(20), code("CN")), Ok(()));
    let index = b.finish();
    assert_eq!(entries(&index), vec![(0, Some(code("AU"))), (10, Some(code("CN")))]);
}

#[test]
fn a_reversed_range_is_refused() {
    let mut b = RangeIndexBuilder::<u32, CountryCode>::new();
    assert_eq!(b.push(10, 9, Some(10), code("AU")), Err(Error::AddrOutOfOrder));
    assert_eq!(b.push(10, 10, Some(11), code("AU")), Ok(()));
    assert_eq!(b.finish().len(), 2);
}

#[test]
fn nothing_follows_a_range_that_reached_the_last_address() {
    let mut b = RangeIndexBuilder::<u32, CountryCode>::new();
    assert_eq!(b.push(0, u32::MAX, None, code("AU")), Ok(()));
    assert_eq!(b.push(5, 9, Some(10), code("CN")), Err(Error::AddrOutOfOrder));
    assert_eq!(b.push(u32::MAX, u32::MAX, None, code("CN")), Err(Error::AddrOutOfOrder));
    let index = b.finish();
    assert_eq!(entries(&index), vec![(0, Some(code("AU")))]);
    assert_eq!(index.lookup(u32::MAX), Some(code("AU")));
}

#[test]
fn an_empty_builder_gives_an_empty_index() {
    let b = RangeIndexBuilder::<u128, CountryCode>::new();
    let index = b.finish();
    assert_eq!(index.len(), 0);
    assert_eq!(index.lookup(0), None);
    assert_eq!(index.lookup(u128::MAX), None);
}

#[test]
fn the_sixteen_byte_family_is_built_alike() {
    let mut b = RangeIndexBuilder::<u128, CountryCode>::new();
    let top = u128::MAX;
    assert_eq!(b.push(1 << 100, (1 << 101) - 1, Some(1 << 101), code("FR")), Ok(()));
    assert_eq!(b.push(1 << 101, top, None, code("JP")), Ok(()));
    let index = b.finish();
    assert_eq!(index.len(), 3);
    assert_eq!(index.lookup(5), None);
    assert_eq!(index.lookup(1 << 100), Some(code("FR")));
    assert_eq!(index.lookup((1 << 101) - 1), Some(code("FR")));
    assert_eq!(index.lookup(top), Some(code("JP")));
}
