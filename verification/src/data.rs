use crate::error::Error;
use vstd::prelude::*;
use vstd::string::{StrSliceExecFns, StringExecFns, StringSliceAdditionalSpecFns};

verus! {

/// The fields of a record as byte strings, each the UTF-8 form of its text.
pub open spec fn fields_of(record: Seq<String>) -> Seq<Seq<u8>> {
    Seq::new(record.len(), |i: int| vstd::utf8::encode_utf8(record[i]@))
}

/// What a database can hold for a range of addresses: a small value that can
/// be copied, compared, and derived from one record.
pub trait IpData: Copy + Sized {
    /// What a record with the given fields yields: a value, nothing where the
    /// record does not concern this kind of value, or the reason why the
    /// record is unusable.
    spec fn derived(fields: Seq<Seq<u8>>) -> Result<Option<Self>, Error>;

    /// Derives the value of a record.
    fn from_record(record: &Vec<String>) -> (r: Result<Option<Self>, Error>)
        ensures
            r == Self::derived(fields_of(record@)),
    ;

    /// Whether two values are equal.
    fn same(&self, other: &Self) -> (r: bool)
        ensures
            r == (*self == *other),
    ;
}

/// Whether `b` is an ASCII letter of either case.
pub open spec fn is_letter(b: u8) -> bool {
    (0x41 <= b <= 0x5a) || (0x61 <= b <= 0x7a)
}

/// Whether `b` is an upper-case ASCII letter.
pub open spec fn is_upper(b: u8) -> bool {
    0x41 <= b <= 0x5a
}

/// The upper-case form of the letter `b`.
pub open spec fn upper(b: u8) -> u8 {
    if 0x61 <= b <= 0x7a {
        (b - 0x20) as u8
    } else {
        b
    }
}

/// The place of the country code in a record: the third of three fields, or
/// the fourth of eight.
pub open spec fn code_field(fields: Seq<Seq<u8>>) -> Option<Seq<u8>> {
    if fields.len() == 3 {
        Some(fields[2])
    } else if fields.len() == 8 {
        Some(fields[3])
    } else {
        None
    }
}

/// The upper-case alphabet holds the letter of each place.
proof fn lemma_alphabet(a: Seq<char>)
    requires
        a.len() == 26,
        a[0] == 'A',
        a[1] == 'B',
        a[2] == 'C',
        a[3] == 'D',
        a[4] == 'E',
        a[5] == 'F',
        a[6] == 'G',
        a[7] == 'H',
        a[8] == 'I',
        a[9] == 'J',
        a[10] == 'K',
        a[11] == 'L',
        a[12] == 'M',
        a[13] == 'N',
        a[14] == 'O',
        a[15] == 'P',
        a[16] == 'Q',
        a[17] == 'R',
        a[18] == 'S',
        a[19] == 'T',
        a[20] == 'U',
        a[21] == 'V',
        a[22] == 'W',
        a[23] == 'X',
        a[24] == 'Y',
        a[25] == 'Z',
    ensures
        vstd::utf8::is_ascii_chars(a),
        forall|i: int| 0 <= i < 26 ==> a[i] == ((0x41 + i) as u8) as char,
{
    assert forall|i: int| 0 <= i < 26 implies a[i] == ((0x41 + i) as u8) as char by {
        if i == 0 {
        } else if i == 1 {
        } else if i == 2 {
        } else if i == 3 {
        } else if i == 4 {
        } else if i == 5 {
        } else if i == 6 {
        } else if i == 7 {
        } else if i == 8 {
        } else if i == 9 {
        } else if i == 10 {
        } else if i == 11 {
        } else if i == 12 {
        } else if i == 13 {
        } else if i == 14 {
        } else if i == 15 {
        } else if i == 16 {
        } else if i == 17 {
        } else if i == 18 {
        } else if i == 19 {
        } else if i == 20 {
        } else if i == 21 {
        } else if i == 22 {
        } else if i == 23 {
        } else if i == 24 {
        } else {
        }
    }
}

/// A two-letter country code, held in upper case.
#[derive(Clone, Copy, Debug, PartialEq, Eq, Hash, Structural)]
pub struct CountryCode {
    first: u8,
    second: u8,
}

impl CountryCode {
    /// Every code is made of two upper-case letters.
    #[verifier::type_invariant]
    closed spec fn inv(self) -> bool {
        is_upper(self.first) && is_upper(self.second)
    }

    /// The two letters of the code.
    pub closed spec fn letters(self) -> (u8, u8) {
        (self.first, self.second)
    }

    /// The code with the given letters.
    pub closed spec fn of(first: u8, second: u8) -> CountryCode {
        CountryCode { first, second }
    }

    /// Whether the code is made of two upper-case letters, as every code is
    /// that this library hands out.
    pub open spec fn wf(self) -> bool {
        is_upper(self.letters().0) && is_upper(self.letters().1)
    }

    /// A code is its two letters, no more.
    pub proof fn lemma_letters(self)
        ensures
            CountryCode::of(self.letters().0, self.letters().1) == self,
    {
    }

    /// The letters of a code are those it was made of.
    pub proof fn lemma_of(first: u8, second: u8)
        ensures
            CountryCode::of(first, second).letters() == (first, second),
    {
    }

    /// The code that `t` writes, if it writes one: two ASCII letters, of
    /// either case.
    pub open spec fn text(t: Seq<u8>) -> Option<CountryCode> {
        if t.len() == 2 && is_letter(t[0]) && is_letter(t[1]) {
            Some(CountryCode::of(upper(t[0]), upper(t[1])))
        } else {
            None
        }
    }

    /// Reads a code from its two letters.
    pub fn from_bytes(t: &[u8]) -> (r: Option<CountryCode>)
        ensures
            r == CountryCode::text(t@),
            r matches Some(c) ==> c.wf(),
    {
        if t.len() != 2 {
            return None;
        }
        let a: u8 = t[0];
        let b: u8 = t[1];
        let a_ok = (a >= 0x41 && a <= 0x5a) || (a >= 0x61 && a <= 0x7a);
        let b_ok = (b >= 0x41 && b <= 0x5a) || (b >= 0x61 && b <= 0x7a);
        if !a_ok || !b_ok {
            return None;
        }
        let first: u8 = if a >= 0x61 {
            a - 0x20
        } else {
            a
        };
        let second: u8 = if b >= 0x61 {
            b - 0x20
        } else {
            b
        };
        Some(CountryCode { first, second })
    }

    /// Reads a code from a text such as `"US"` or `"us"`.
    pub fn from_str(s: &str) -> (r: Option<CountryCode>)
        ensures
            r == CountryCode::text(s.spec_bytes()),
            r matches Some(c) ==> c.wf(),
    {
        CountryCode::from_bytes(s.as_bytes())
    }

    /// The code as a text of two letters.
    pub open spec fn chars(self) -> Seq<char> {
        seq![self.letters().0 as char, self.letters().1 as char]
    }

    /// The code as a text of two upper-case letters.
    pub fn as_string(&self) -> (r: String)
        ensures
            r@ == self.chars(),
            self.wf(),
    {
        let alphabet = "ABCDEFGHIJKLMNOPQRSTUVWXYZ";
        proof {
            use_type_invariant(self);
            reveal_strlit("ABCDEFGHIJKLMNOPQRSTUVWXYZ");
            lemma_alphabet(alphabet@);
        }
        let i: usize = (self.first - 0x41) as usize;
        let j: usize = (self.second - 0x41) as usize;
        let a = alphabet.substring_ascii(i, i + 1);
        let b = alphabet.substring_ascii(j, j + 1);
        let r = String::from_str(a).concat(b);
        assert(r@ =~= self.chars());
        r
    }

    /// The two letters of the code, in upper case.
    pub fn as_bytes(&self) -> (r: [u8; 2])
        ensures
            r@ == seq![self.letters().0, self.letters().1],
            self.wf(),
    {
        proof {
            use_type_invariant(self);
        }
        let r: [u8; 2] = [self.first, self.second];
        assert(r@ =~= seq![self.first, self.second]);
        r
    }
}

impl IpData for CountryCode {
    open spec fn derived(fields: Seq<Seq<u8>>) -> Result<Option<Self>, Error> {
        match code_field(fields) {
            Some(t) => match CountryCode::text(t) {
                Some(c) => Ok(Some(c)),
                None => Err(Error::InvalidRecord),
            },
            None => Err(Error::InvalidRecord),
        }
    }

    fn from_record(record: &Vec<String>) -> (r: Result<Option<Self>, Error>) {
        let n: usize = record.len();
        let at: usize = if n == 3 {
            2
        } else if n == 8 {
            3
        } else {
            return Err(Error::InvalidRecord);
        };
        match CountryCode::from_str(record[at].as_str()) {
            Some(c) => Ok(Some(c)),
            None => Err(Error::InvalidRecord),
        }
    }

    fn same(&self, other: &Self) -> (r: bool) {
        *self == *other
    }
}

} // verus!
