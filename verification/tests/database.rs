use db_ip::addr::{AddressFamily, Families, IpAddress};
use db_ip::data::{CountryCode, IpData};
use db_ip::database::{DbIp, DbIpDatabase, DbIpDatabaseBuilder};
use db_ip::error::Error;
use db_ip::region::Region;
use db_ip::text::{parse_address, parse_ipv4, parse_ipv6};

fn code(s: &str) -> CountryCode {
    CountryCode::from_str(s).unwrap()
}

fn record(fields: &[&str]) -> Vec<String> {
    fields.iter().map(|f| f.to_string()).collect()
}

fn source(rows: &[&[&str]]) -> Vec<Result<Vec<String>, String>> {
    rows.iter().map(|r| Ok(record(r))).collect()
}

fn v4(s: &str) -> u32 {
    parse_ipv4(s.as_bytes()).unwrap()
}

fn v6(s: &str) -> u128 {
    parse_ipv6(s.as_bytes()).unwrap()
}

fn error_of<V: IpData>(rows: &[&[&str]]) -> Error {
    match DbIpDatabase::<V>::from_records(&source(rows)) {
        Ok(_) => panic!("the load should have failed"),
        Err(e) => e,
    }
}

#[test]
fn country_rows_build_a_database() {
    let db = DbIpDatabase::<CountryCode>::from_records(&source(&[
        &["1.0.0.0", "1.0.0.255", "AU"],
        &["1.0.1.0", "1.0.3.255", "CN"],
    ]))
    .unwrap();
    assert_eq!(db.get_v4(v4("1.0.0.128")), Some(code("AU")));
    assert_eq!(db.get_v4(v4("1.0.2.0")), Some(code("CN")));
    assert_eq!(db.get_v4(v4("1.0.0.0")), Some(code("AU")));
    assert_eq!(db.get_v4(v4("1.0.0.255")), Some(code("AU")));
    assert_eq!(db.get_v4(v4("1.0.1.0")), Some(code("CN")));
    assert_eq!(db.get_v4(v4("1.0.3.255")), Some(code("CN")));
    assert_eq!(db.get_v4(v4("0.255.255.255")), None);
    assert_eq!(db.get_v4(0), None);
    assert_eq!(db.len_v4(), 3);
    assert_eq!(db.len_v6(), 0);
    assert_eq!(db.get_v6(5), None);
}

#[test]
fn addresses_behind_the_last_range_keep_its_value() {
    let db = DbIpDatabase::<CountryCode>::from_records(&source(&[
        &["1.0.0.0", "1.0.0.255", "AU"],
        &["1.0.1.0", "1.0.3.255", "CN"],
    ]))
    .unwrap();
    assert_eq!(db.get_v4(v4("1.0.4.0")), Some(code("CN")));
    assert_eq!(db.get_v4(u32::MAX), Some(code("CN")));
}

#[test]
fn mixed_families_are_refused_and_change_nothing() {
    let mut b = DbIpDatabaseBuilder::<CountryCode>::new();
    assert_eq!(b.push_record(&record(&["1.0.0.0", "1.0.0.255", "AU"])), Ok(()));
    assert_eq!(b.push_record(&record(&["::", "::ffff", "AU"])), Ok(()));
    assert_eq!(
        b.push_record(&record(&["1.0.1.0", "::1:0", "CN"])),
        Err(Error::AddrMismatch)
    );
    assert_eq!(
        b.push_record(&record(&["::1:0", "1.0.1.255", "CN"])),
        Err(Error::AddrMismatch)
    );
    assert_eq!(b.push_record(&record(&["1.0.1.0", "1.0.1.255", "CN"])), Ok(()));
    assert_eq!(b.push_record(&record(&["::1:0", "::1:ffff", "CN"])), Ok(()));
    let db = b.finish();
    assert_eq!(db.index_v4().starts(), &vec![0, v4("1.0.0.0"), v4("1.0.1.0")]);
    assert_eq!(db.index_v4().values(), &vec![None, Some(code("AU")), Some(code("CN"))]);
    assert_eq!(db.index_v6().starts(), &vec![0, v6("::1:0")]);
    assert_eq!(db.index_v6().values(), &vec![Some(code("AU")), Some(code("CN"))]);
    assert_eq!(
        error_of::<CountryCode>(&[&["1.0.0.0", "::1", "AU"]]),
        Error::AddrMismatch
    );
}

#[test]
fn a_malformed_endpoint_ends_the_load() {
    assert_eq!(error_of::<CountryCode>(&[&["1.0.0", "1.0.0.255", "AU"]]), Error::AddrParse);
    assert_eq!(error_of::<CountryCode>(&[&["1.0.0.0", "here", "AU"]]), Error::AddrParse);
    assert_eq!(error_of::<CountryCode>(&[&["", "", "AU"]]), Error::AddrParse);
    assert_eq!(error_of::<CountryCode>(&[&["::g", "1.0.0.255", "AU"]]), Error::AddrParse);
    assert_eq!(
        error_of::<CountryCode>(&[&["1.0.0.0", "1.0.0.255", "AU"], &["1.0.1.0", "1.0.1.256", "CN"]]),
        Error::AddrParse
    );
}

#[test]
fn ranges_out_of_order_end_the_load() {
    assert_eq!(
        error_of::<CountryCode>(&[&["1.0.1.0", "1.0.3.255", "CN"], &["1.0.0.0", "1.0.0.255", "AU"]]),
        Error::AddrOutOfOrder
    );
    assert_eq!(
        error_of::<CountryCode>(&[&["1.0.0.0", "1.0.0.255", "AU"], &["1.0.0.255", "1.0.1.0", "AU"]]),
        Error::AddrOutOfOrder
    );
    assert_eq!(
        error_of::<CountryCode>(&[&["1.0.0.255", "1.0.0.0", "AU"]]),
        Error::AddrOutOfOrder
    );
    assert_eq!(
        error_of::<CountryCode>(&[
            &["0.0.0.0", "255.255.255.255", "AU"],
            &["255.255.255.255", "255.255.255.255", "AU"],
        ]),
        Error::AddrOutOfOrder
    );
    assert_eq!(
        error_of::<CountryCode>(&[
            &["::", "ffff:ffff:ffff:ffff:ffff:ffff:ffff:ffff", "AU"],
            &["::1", "::2", "CN"],
        ]),
        Error::AddrOutOfOrder
    );
}

#[test]
fn a_record_without_the_needed_fields_ends_the_load() {
    assert_eq!(error_of::<CountryCode>(&[&["1.0.0.0", "1.0.0.255"]]), Error::InvalidRecord);
    assert_eq!(error_of::<CountryCode>(&[&[]]), Error::InvalidRecord);
    assert_eq!(
        error_of::<CountryCode>(&[&["1.0.0.0", "1.0.0.255", "AU", "extra"]]),
        Error::InvalidRecord
    );
    assert_eq!(error_of::<CountryCode>(&[&["1.0.0.0", "1.0.0.255", "A"]]), Error::InvalidRecord);
    assert_eq!(error_of::<CountryCode>(&[&["1.0.0.0", "1.0.0.255", "A1"]]), Error::InvalidRecord);
    assert_eq!(error_of::<CountryCode>(&[&["1.0.0.0", "1.0.0.255", "AUS"]]), Error::InvalidRecord);
    assert_eq!(error_of::<Region>(&[&["1.0.0.0", "1.0.0.255"]]), Error::InvalidRecord);
    // the value is derived before the endpoints are read
    assert_eq!(error_of::<CountryCode>(&[&["no", "address", "A"]]), Error::InvalidRecord);
}

#[test]
fn a_row_that_could_not_be_read_ends_the_load() {
    let mut rows = source(&[&["1.0.0.0", "1.0.0.255", "AU"]]);
    rows.push(Err("broken pipe".to_string()));
    rows.push(Ok(record(&["1.0.1.0", "1.0.3.255", "CN"])));
    match DbIpDatabase::<CountryCode>::from_records(&rows) {
        Err(e) => assert_eq!(e, Error::SourceRead),
        Ok(_) => panic!("the load should have failed"),
    }
}

#[test]
fn the_first_failure_is_the_one_reported() {
    let mut rows = source(&[&["1.0.0.0", "nowhere", "AU"]]);
    rows.push(Err("late".to_string()));
    match DbIpDatabase::<CountryCode>::from_records(&rows) {
        Err(e) => assert_eq!(e, Error::AddrParse),
        Ok(_) => panic!("the load should have failed"),
    }
}

#[test]
fn city_rows_hold_the_code_in_the_fourth_field() {
    let db = DbIpDatabase::<CountryCode>::from_records(&source(&[
        &["1.0.0.0", "1.0.0.255", "OC", "au", "Queensland", "South Brisbane", "-27.4767", "153.017"],
        &["1.0.1.0", "1.0.3.255", "AS", "CN", "Fujian", "Fuzhou", "26.0614", "119.306"],
    ]))
    .unwrap();
    assert_eq!(db.get_v4(v4("1.0.0.128")), Some(code("AU")));
    assert_eq!(db.get_v4(v4("1.0.2.0")), Some(code("CN")));
}

#[test]
fn both_families_are_loaded_from_one_source() {
    let db: DbIp<CountryCode> = DbIpDatabase::from_records(&source(&[
        &["0.0.0.0", "0.255.255.255", "ZZ"],
        &["1.0.0.0", "1.0.0.255", "AU"],
        &["1.0.1.0", "255.255.255.255", "CN"],
        &["::", "1fff:ffff:ffff:ffff:ffff:ffff:ffff:ffff", "ZZ"],
        &["2000::", "2a07:7ec5:77a0:ffff:ffff:ffff:ffff:ffff", "US"],
        &["2a07:7ec5:77a1::", "2a07:7ec5:77a1:ffff:ffff:ffff:ffff:ffff", "DE"],
        &["2a07:7ec5:77a2::", "ffff:ffff:ffff:ffff:ffff:ffff:ffff:ffff", "US"],
    ]))
    .unwrap();
    assert_eq!(db.len_v4(), 3);
    assert_eq!(db.len_v6(), 4);
    assert_eq!(db.get_v4(0), Some(code("ZZ")));
    assert_eq!(db.get_v4(u32::MAX), Some(code("CN")));
    assert_eq!(db.get_v6(v6("2a07:7ec5:77a1::")), Some(code("DE")));
    assert_eq!(db.get_v6(v6("2a07:7ec5:77a1::1")), Some(code("DE")));
    assert_eq!(db.get_v6(v6("2a07:7ec5:77a0:ffff::")), Some(code("US")));
    assert_eq!(db.get_v6(u128::MAX), Some(code("US")));
    assert_eq!(db.get(IpAddress::V4(v4("1.0.0.7"))), Some(code("AU")));
    assert_eq!(db.get(IpAddress::V6(v6("::7"))), Some(code("ZZ")));
    assert_eq!(db.get(parse_address(b"2a07:7ec5:77a1::9").unwrap()), Some(code("DE")));
    assert_eq!(db.get(parse_address(b"1.0.1.0").unwrap()), Some(code("CN")));
}

#[test]
fn no_records_give_an_empty_database() {
    let db = DbIpDatabase::<CountryCode>::from_records(&source(&[])).unwrap();
    assert_eq!(db.len_v4(), 0);
    assert_eq!(db.len_v6(), 0);
    assert_eq!(db.get_v4(0), None);
    assert_eq!(db.get_v6(0), None);
    let db = DbIpDatabaseBuilder::<Region>::new().finish();
    assert_eq!(db.len_v4(), 0);
    assert_eq!(db.get(IpAddress::V6(1)), None);
}

#[test]
fn a_record_without_value_is_passed_over() {
    // no country is filed under ZZ, so the rows that carry it yield no region
    let db = DbIpDatabase::<Region>::from_records(&source(&[
        &["0.0.0.0", "0.255.255.255", "ZZ"],
        &["1.0.0.0", "1.0.0.255", "AU"],
        &["not", "read", "ZZ"],
        &["1.0.1.0", "1.0.3.255", "AU"],
        &["0.0.0.0", "255.255.255.255", "ZZ"],
    ]))
    .unwrap();
    assert_eq!(db.index_v4().starts(), &vec![0, v4("1.0.0.0")]);
    assert_eq!(db.index_v4().values(), &vec![None, Some(Region::Oceania)]);
    assert_eq!(db.get_v4(v4("0.1.2.3")), None);
    assert_eq!(db.get_v4(v4("1.0.2.0")), Some(Region::Oceania));
}

#[test]
fn regions_are_derived_from_the_country_code() {
    let db = DbIpDatabase::<Region>::from_records(&source(&[
        &["1.0.0.0", "1.0.0.255", "AU"],
        &["1.0.1.0", "1.0.3.255", "CN"],
        &["1.0.4.0", "1.0.4.255", "us"],
        &["1.0.5.0", "1.0.5.255", "BR"],
        &["1.0.6.0", "1.0.6.255", "NA"],
        &["1.0.7.0", "1.0.7.255", "DE"],
    ]))
    .unwrap();
    assert_eq!(db.get_v4(v4("1.0.0.1")), Some(Region::Oceania));
    assert_eq!(db.get_v4(v4("1.0.1.1")), Some(Region::Asia));
    assert_eq!(db.get_v4(v4("1.0.4.1")), Some(Region::NorthAmerica));
    assert_eq!(db.get_v4(v4("1.0.5.1")), Some(Region::SouthAmerica));
    assert_eq!(db.get_v4(v4("1.0.6.1")), Some(Region::Africa));
    assert_eq!(db.get_v4(v4("1.0.7.1")), Some(Region::Europe));
}

#[test]
fn records_of_a_family_that_is_not_held_are_passed_over() {
    let rows = source(&[
        &["1.0.0.0", "1.0.0.255", "AU"],
        &["::", "::ffff", "DE"],
        &["1.0.1.0", "1.0.3.255", "CN"],
        &["::1:0", "::1:ffff", "FR"],
    ]);
    let only_v4 = Families::only(AddressFamily::V4);
    let db = DbIpDatabase::<CountryCode>::from_records_for(only_v4, &rows).unwrap();
    assert_eq!(db.held(), only_v4);
    assert!(db.held().holds(AddressFamily::V4));
    assert!(!db.held().holds(AddressFamily::V6));
    assert_eq!(db.count(AddressFamily::V4), 3);
    assert_eq!(db.count(AddressFamily::V6), 0);
    assert_eq!(db.get_v4(v4("1.0.2.0")), Some(code("CN")));
    assert_eq!(db.get_v6(0), None);
    assert_eq!(db.get(IpAddress::V6(5)), None);

    let only_v6 = Families::only(AddressFamily::V6);
    let mut b = DbIpDatabaseBuilder::<CountryCode>::for_families(only_v6);
    for r in rows.iter() {
        assert_eq!(b.push_record(r.as_ref().unwrap()), Ok(()));
    }
    // out of order for IPv4, which is not held
    assert_eq!(b.push_record(&record(&["1.0.0.0", "1.0.0.255", "AU"])), Ok(()));
    // but still to be two addresses of one family
    assert_eq!(b.push_record(&record(&["1.0.0.0", "1.0.0", "AU"])), Err(Error::AddrParse));
    assert_eq!(b.push_record(&record(&["1.0.0.0", "::9", "AU"])), Err(Error::AddrMismatch));
    let db = b.finish();
    assert_eq!(db.held(), only_v6);
    assert_eq!(db.len_v4(), 0);
    assert_eq!(db.len_v6(), 2);
    assert_eq!(db.get_v6(v6("::1:5")), Some(code("FR")));

    let db = DbIpDatabase::<CountryCode>::from_records(&rows).unwrap();
    assert_eq!(db.held(), Families::all());
    assert_eq!(db.count(AddressFamily::V4), 3);
    assert_eq!(db.count(AddressFamily::V6), 2);
}

#[test]
fn an_address_knows_its_family() {
    assert_eq!(IpAddress::V4(7).family(), AddressFamily::V4);
    assert_eq!(IpAddress::V6(7).family(), AddressFamily::V6);
    assert_eq!(Families::all(), Families { v4: true, v6: true });
    assert_eq!(Families::only(AddressFamily::V4), Families { v4: true, v6: false });
    assert_eq!(Families::only(AddressFamily::V6), Families { v4: false, v6: true });
}
