use db_ip::data::CountryCode;
use db_ip::database::DbIpDatabase;
use db_ip::region::Region;
use db_ip::text::{parse_ipv4, parse_ipv6};

fn rows() -> Vec<Result<Vec<String>, String>> {
    let lines: [[&str; 3]; 8] = [
        ["0.0.0.0", "0.255.255.255", "ZZ"],
        ["94.250.128.0", "94.250.191.255", "RU"],
        ["94.250.192.0", "94.250.207.255", "US"],
        ["94.250.208.0", "94.250.223.255", "DE"],
        ["::", "1fff:ffff:ffff:ffff:ffff:ffff:ffff:ffff", "ZZ"],
        ["2a07:7ec5:77a0::", "2a07:7ec5:77a0:ffff:ffff:ffff:ffff:ffff", "US"],
        ["2a07:7ec5:77a1::", "2a07:7ec5:77a1:ffff:ffff:ffff:ffff:ffff", "DE"],
        ["2a07:7ec5:77a2::", "2a07:7ec5:77a2:ffff:ffff:ffff:ffff:ffff", "JP"],
    ];
    lines.iter().map(|l| Ok(l.iter().map(|f| f.to_string()).collect())).collect()
}

fn city_rows() -> Vec<Result<Vec<String>, String>> {
    let lines: [[&str; 8]; 3] = [
        ["94.250.128.0", "94.250.191.255", "EU", "RU", "Moscow", "Moscow", "55.7522", "37.6156"],
        ["94.250.192.0", "94.250.207.255", "NA", "US", "Texas", "Dallas", "32.7767", "-96.797"],
        ["94.250.208.0", "94.250.223.255", "EU", "DE", "Hesse", "Frankfurt", "50.1109", "8.68213"],
    ];
    lines.iter().map(|l| Ok(l.iter().map(|f| f.to_string()).collect())).collect()
}

#[test]
fn country_code() {
    assert_eq!(CountryCode::from_str("US"), CountryCode::from_str("us"));
}

#[test]
fn region_v4() {
    let db = DbIpDatabase::<Region>::from_records(&rows()).unwrap();
    assert_eq!(
        db.get_v4(parse_ipv4("94.250.200.0".as_bytes()).unwrap()),
        Some(Region::NorthAmerica)
    );
}

#[test]
fn country_code_v4() {
    let db = DbIpDatabase::<CountryCode>::from_records(&rows()).unwrap();
    println!("country code length v4: {}", db.len_v4());
    assert_eq!(
        db.get_v4(parse_ipv4("94.250.200.0".as_bytes()).unwrap()),
        Some(CountryCode::from_str("US").unwrap())
    );
}

#[test]
fn city_country_code_v4() {
    let db = DbIpDatabase::<CountryCode>::from_records(&city_rows()).unwrap();
    println!("city country code length v4: {}", db.len_v4());
    assert_eq!(
        db.get_v4(parse_ipv4("94.250.200.0".as_bytes()).unwrap()),
        Some(CountryCode::from_str("US").unwrap())
    );
}

#[test]
fn region_v6() {
    let db = DbIpDatabase::<Region>::from_records(&rows()).unwrap();
    assert_eq!(
        db.get_v6(parse_ipv6("2a07:7ec5:77a1::".as_bytes()).unwrap()),
        Some(Region::Europe)
    );
}
