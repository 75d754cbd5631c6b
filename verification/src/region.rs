//! Regions of the world, and the table that files each country under one.

use crate::data::{CountryCode, IpData};
use crate::error::Error;
use vstd::prelude::*;
use vstd::string::StringSliceAdditionalSpecFns;

verus! {

/// Whether two texts are the same.
pub fn same_text(a: &str, b: &str) -> (r: bool)
    ensures
        r == (a@ == b@),
{
    let x = a.as_bytes();
    let y = b.as_bytes();
    proof {
        vstd::utf8::encode_utf8_decode_utf8(a@);
        vstd::utf8::encode_utf8_decode_utf8(b@);
    }
    if x.len() != y.len() {
        return false;
    }
    let mut i: usize = 0;
    while i < x.len()
        invariant
            x@ == a.spec_bytes(),
            y@ == b.spec_bytes(),
            x@.len() == y@.len(),
            0 <= i <= x@.len(),
            forall|k: int| 0 <= k < i ==> x@[k] == y@[k],
        decreases x@.len() - i,
    {
        if x[i] != y[i] {
            return false;
        }
        i = i + 1;
    }
    assert(x@ =~= y@);
    true
}

/// Whether `code` is the code of a country of North America, Central
/// America or the Caribbean.
pub open spec fn is_north_american(code: Seq<char>) -> bool {
    ||| code == "AI"@
    ||| code == "AG"@
    ||| code == "AW"@
    ||| code == "BB"@
    ||| code == "BZ"@
    ||| code == "BM"@
    ||| code == "BQ"@
    ||| code == "VG"@
    ||| code == "CA"@
    ||| code == "KY"@
    ||| code == "CR"@
    ||| code == "CU"@
    ||| code == "CW"@
    ||| code == "DM"@
    ||| code == "DO"@
    ||| code == "SV"@
    ||| code == "GL"@
    ||| code == "GD"@
    ||| code == "GP"@
    ||| code == "GT"@
    ||| code == "HT"@
    ||| code == "HN"@
    ||| code == "JM"@
    ||| code == "MQ"@
    ||| code == "MX"@
    ||| code == "MS"@
    ||| code == "AN"@
    ||| code == "NI"@
    ||| code == "PA"@
    ||| code == "PR"@
    ||| code == "BL"@
    ||| code == "KN"@
    ||| code == "LC"@
    ||| code == "MF"@
    ||| code == "PM"@
    ||| code == "VC"@
    ||| code == "SX"@
    ||| code == "BS"@
    ||| code == "TT"@
    ||| code == "TC"@
    ||| code == "US"@
    ||| code == "VI"@
}

/// The country code under which a country is filed: the code itself, but
/// `NA` for Namibia, whose code some tables hold as `nan`.
pub open spec fn filed_code(country_code: Seq<char>) -> Seq<char> {
    if country_code == "nan"@ {
        "NA"@
    } else {
        country_code
    }
}

/// The region under which a country is filed: the region named, but with
/// the Americas told apart into `NorthAmerica` and `SouthAmerica`.
pub open spec fn filed_region(country_code: Seq<char>, region_name: Seq<char>) -> Seq<char> {
    if region_name == "Americas"@ {
        if is_north_american(filed_code(country_code)) {
            "NorthAmerica"@
        } else {
            "SouthAmerica"@
        }
    } else {
        region_name
    }
}

/// Whether `code` is the code of a country of North America, Central
/// America or the Caribbean.
fn north_american(code: &str) -> (r: bool)
    ensures
        r == is_north_american(code@),
{
    same_text(code, "AI") || same_text(code, "AG") || same_text(code, "AW") || same_text(
        code,
        "BB",
    ) || same_text(code, "BZ") || same_text(code, "BM") || same_text(code, "BQ") || same_text(
        code,
        "VG",
    ) || same_text(code, "CA") || same_text(code, "KY") || same_text(code, "CR") || same_text(
        code,
        "CU",
    ) || same_text(code, "CW") || same_text(code, "DM") || same_text(code, "DO") || same_text(
        code,
        "SV",
    ) || same_text(code, "GL") || same_text(code, "GD") || same_text(code, "GP") || same_text(
        code,
        "GT",
    ) || same_text(code, "HT") || same_text(code, "HN") || same_text(code, "JM") || same_text(
        code,
        "MQ",
    ) || same_text(code, "MX") || same_text(code, "MS") || same_text(code, "AN") || same_text(
        code,
        "NI",
    ) || same_text(code, "PA") || same_text(code, "PR") || same_text(code, "BL") || same_text(
        code,
        "KN",
    ) || same_text(code, "LC") || same_text(code, "MF") || same_text(code, "PM") || same_text(
        code,
        "VC",
    ) || same_text(code, "SX") || same_text(code, "BS") || same_text(code, "TT") || same_text(
        code,
        "TC",
    ) || same_text(code, "US") || same_text(code, "VI")
}

/// A country code with the name of the region under which it is filed.
pub struct RegionFromCountryCodeStr(String, String);

impl RegionFromCountryCodeStr {
    /// The country code of the entry.
    pub closed spec fn code(&self) -> Seq<char> {
        self.0@
    }

    /// The name of the region of the entry.
    pub closed spec fn region(&self) -> Seq<char> {
        self.1@
    }

    /// Files a country under its region. Namibia's code is set right, and a
    /// country of the Americas is filed under `NorthAmerica` or
    /// `SouthAmerica`.
    pub fn new(country_code: &str, region_name: &str) -> (r: Self)
        ensures
            r.code() == filed_code(country_code@),
            r.region() == filed_region(country_code@, region_name@),
    {
        let mut country_code = country_code;
        let mut region_name = region_name;
        if same_text(country_code, "nan") {
            country_code = "NA";
        }
        if same_text(region_name, "Americas") {
            if north_american(country_code) {
                region_name = "NorthAmerica";
            } else {
                region_name = "SouthAmerica";
            }
        }
        RegionFromCountryCodeStr(country_code.to_owned(), region_name.to_owned())
    }

    /// The country code of the entry.
    pub fn country_code(&self) -> (r: &str)
        ensures
            r@ == self.code(),
    {
        self.0.as_str()
    }

    /// The name of the region of the entry.
    pub fn region_name(&self) -> (r: &str)
        ensures
            r@ == self.region(),
    {
        self.1.as_str()
    }
}

/// What `locale_codes::country::lookup` holds for a country code of two or
/// three letters: the two-letter code of the country and the number of its
/// region, if it has one.
pub uninterp spec fn country_info(code: Seq<char>) -> Option<(Seq<char>, Option<u16>)>;

/// What `locale_codes::region::lookup` holds for the number of a region: its name.
pub uninterp spec fn region_info(code: u16) -> Option<Seq<char>>;

/// Calls `locale_codes::country::lookup`, which finds a country by its code
/// in the table that the crate carries, and picks the two-letter code and
/// the region number of what was found. The call panics on a code that is
/// not two or three bytes long. The table is fixed, so the result is named
/// as a function of the code.
#[verifier::external_body]
fn country_lookup(code: &str) -> (r: Option<(String, Option<u16>)>)
    requires
        code.spec_bytes().len() == 2 || code.spec_bytes().len() == 3,
    ensures
        match r {
            Some(found) => country_info(code@) == Some((found.0@, found.1)),
            None => country_info(code@) is None,
        },
{
    locale_codes::country::lookup(code).map(|info| (info.short_code.clone(), info.region_code))
}

/// Calls `locale_codes::region::lookup`, which finds a region by its number
/// in the table that the crate carries, and picks the name of what was
/// found. The table is fixed, so the result is named as a function of the
/// number.
#[verifier::external_body]
fn region_lookup(code: u16) -> (r: Option<String>)
    ensures
        match r {
            Some(name) => region_info(code) == Some(name@),
            None => region_info(code) is None,
        },
{
    locale_codes::region::lookup(code).map(|info| info.name.clone())
}

/// The entry of the country that is looked up by `code`: its two-letter code
/// and the name of its region, both as they are filed. There is none for a
/// code that is not two or three bytes long, for an unknown code, and for a
/// country without region.
pub open spec fn entry_of(code: Seq<char>) -> Option<(Seq<char>, Seq<char>)> {
    let n = vstd::utf8::encode_utf8(code).len();
    if n != 2 && n != 3 {
        None
    } else {
        match country_info(code) {
            Some((short, Some(number))) => match region_info(number) {
                Some(name) => Some((filed_code(short), filed_region(short, name))),
                None => None,
            },
            _ => None,
        }
    }
}

/// Looks a country up by its code and files it under its region.
pub fn entry_for(code: &str) -> (r: Option<RegionFromCountryCodeStr>)
    ensures
        match r {
            Some(e) => entry_of(code@) == Some((e.code(), e.region())),
            None => entry_of(code@) is None,
        },
{
    let n: usize = code.as_bytes().len();
    if n != 2 && n != 3 {
        return None;
    }
    match country_lookup(code) {
        Some((short, Some(number))) => match region_lookup(number) {
            Some(name) => Some(RegionFromCountryCodeStr::new(short.as_str(), name.as_str())),
            None => None,
        },
        _ => None,
    }
}

/// A part of the world, about the size of a continent.
#[derive(Clone, Copy, Debug, PartialEq, Eq, Hash, Structural)]
pub enum Region {
    Africa,
    Asia,
    Europe,
    NorthAmerica,
    Oceania,
    SouthAmerica,
}

impl Region {
    /// The region with the given name.
    pub open spec fn named(name: Seq<char>) -> Option<Region> {
        if name == "Africa"@ {
            Some(Region::Africa)
        } else if name == "Asia"@ {
            Some(Region::Asia)
        } else if name == "Europe"@ {
            Some(Region::Europe)
        } else if name == "NorthAmerica"@ {
            Some(Region::NorthAmerica)
        } else if name == "Oceania"@ {
            Some(Region::Oceania)
        } else if name == "SouthAmerica"@ {
            Some(Region::SouthAmerica)
        } else {
            None
        }
    }

    /// The region that an entry gives to a country: that which the entry
    /// names, if the entry is filed under the code of the country.
    pub open spec fn of_entry(code: CountryCode, entry: (Seq<char>, Seq<char>)) -> Option<Region> {
        if entry.0 == code.chars() {
            Region::named(entry.1)
        } else {
            None
        }
    }

    /// The region of a country: that which the entry found for its code
    /// gives it. Namibia is looked up by its three-letter code, since its
    /// two-letter code is not in the tables as it should be.
    pub open spec fn of_country(code: CountryCode) -> Option<Region> {
        let key = if code.chars() == "NA"@ {
            "NAM"@
        } else {
            code.chars()
        };
        match entry_of(key) {
            Some(entry) => Region::of_entry(code, entry),
            None => None,
        }
    }

    /// The region with the given name.
    pub fn from_name(name: &str) -> (r: Option<Region>)
        ensures
            r == Region::named(name@),
    {
        if same_text(name, "Africa") {
            Some(Region::Africa)
        } else if same_text(name, "Asia") {
            Some(Region::Asia)
        } else if same_text(name, "Europe") {
            Some(Region::Europe)
        } else if same_text(name, "NorthAmerica") {
            Some(Region::NorthAmerica)
        } else if same_text(name, "Oceania") {
            Some(Region::Oceania)
        } else if same_text(name, "SouthAmerica") {
            Some(Region::SouthAmerica)
        } else {
            None
        }
    }

    /// The region that an entry gives to a country, if it is the entry of
    /// that country and names a region.
    pub fn from_entry(code: CountryCode, entry: &RegionFromCountryCodeStr) -> (r: Option<Region>)
        ensures
            r == Region::of_entry(code, (entry.code(), entry.region())),
    {
        let text = code.as_string();
        if same_text(entry.country_code(), text.as_str()) {
            Region::from_name(entry.region_name())
        } else {
            None
        }
    }

    /// The region of a country, if the country is known and has one.
    pub fn from_country_code(code: CountryCode) -> (r: Option<Region>)
        ensures
            r == Region::of_country(code),
    {
        let text = code.as_string();
        let entry = if same_text(text.as_str(), "NA") {
            entry_for("NAM")
        } else {
            entry_for(text.as_str())
        };
        match entry {
            Some(e) => Region::from_entry(code, &e),
            None => None,
        }
    }
}

impl IpData for Region {
    open spec fn derived(fields: Seq<Seq<u8>>) -> Result<Option<Self>, Error> {
        match CountryCode::derived(fields) {
            Ok(Some(code)) => Ok(Region::of_country(code)),
            Ok(None) => Ok(None),
            Err(e) => Err(e),
        }
    }

    fn from_record(record: &Vec<String>) -> (r: Result<Option<Self>, Error>) {
        match CountryCode::from_record(record) {
            Ok(Some(code)) => Ok(Region::from_country_code(code)),
            Ok(None) => Ok(None),
            Err(e) => Err(e),
        }
    }

    fn same(&self, other: &Self) -> (r: bool) {
        *self == *other
    }
}

} // verus!
