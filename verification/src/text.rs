//! Address literals: dotted decimal for IPv4, colon-separated hexadecimal
//! groups for IPv6, read from the bytes of a text.

use crate::addr::IpAddress;
use vstd::prelude::*;
use vstd::slice::slice_subrange;

verus! {

/// The byte of a full stop.
pub const DOT: u8 = 0x2e;

/// The byte of a colon.
pub const COLON: u8 = 0x3a;

/// The fields of `t` between the separators `sep`. A text without separator
/// is one field; two separators in a row enclose an empty field.
pub open spec fn split(t: Seq<u8>, sep: u8) -> Seq<Seq<u8>>
    decreases t.len(),
{
    if t.len() == 0 {
        seq![Seq::<u8>::empty()]
    } else {
        let fields = split(t.drop_last(), sep);
        if t.last() == sep {
            fields.push(Seq::<u8>::empty())
        } else {
            fields.update(fields.len() - 1, fields.last().push(t.last()))
        }
    }
}

/// Whether `b` is a decimal digit.
pub open spec fn is_digit(b: u8) -> bool {
    0x30 <= b <= 0x39
}

/// Whether `b` is a hexadecimal digit, in either case.
pub open spec fn is_hex_digit(b: u8) -> bool {
    is_digit(b) || (0x41 <= b <= 0x46) || (0x61 <= b <= 0x66)
}

/// The value of the hexadecimal digit `b`.
pub open spec fn hex_digit_value(b: u8) -> nat {
    if is_digit(b) {
        (b - 0x30) as nat
    } else if 0x41 <= b <= 0x46 {
        (b - 0x41 + 10) as nat
    } else {
        (b - 0x61 + 10) as nat
    }
}

/// The number that the digits `t` write in base `base`.
pub open spec fn number(t: Seq<u8>, base: nat) -> nat
    decreases t.len(),
{
    if t.len() == 0 {
        0
    } else {
        number(t.drop_last(), base) * base + hex_digit_value(t.last())
    }
}

/// Whether `t` writes one byte of an IPv4 address: one to three decimal
/// digits, without a leading zero before other digits, worth at most 255.
pub open spec fn is_octet(t: Seq<u8>) -> bool {
    &&& 1 <= t.len() <= 3
    &&& forall|i: int| 0 <= i < t.len() ==> is_digit(#[trigger] t[i])
    &&& t.len() > 1 ==> t[0] != 0x30
    &&& number(t, 10) <= 255
}

/// Whether `t` writes one group of an IPv6 address: one to four hexadecimal digits.
pub open spec fn is_group(t: Seq<u8>) -> bool {
    &&& 1 <= t.len() <= 4
    &&& forall|i: int| 0 <= i < t.len() ==> is_hex_digit(#[trigger] t[i])
}

/// The IPv4 address that `t` writes, if it writes one: four octets
/// separated by dots, the first being the most significant.
pub open spec fn ipv4_text(t: Seq<u8>) -> Option<u32> {
    let f = split(t, DOT);
    if f.len() == 4 && is_octet(f[0]) && is_octet(f[1]) && is_octet(f[2]) && is_octet(f[3]) {
        Some(
            (((number(f[0], 10) * 256 + number(f[1], 10)) * 256 + number(f[2], 10)) * 256 + number(
                f[3],
                10,
            )) as u32,
        )
    } else {
        None
    }
}

/// Cuts `t` at each separator.
pub fn split_fields<'a>(t: &'a [u8], sep: u8) -> (r: Vec<&'a [u8]>)
    ensures
        r@.len() == split(t@, sep).len(),
        forall|i: int| 0 <= i < r@.len() ==> (#[trigger] r@[i])@ == split(t@, sep)[i],
{
    let mut out: Vec<&'a [u8]> = Vec::new();
    let mut begin: usize = 0;
    let mut i: usize = 0;
    assert(t@.take(0) =~= Seq::<u8>::empty());
    while i < t.len()
        invariant
            0 <= begin <= i <= t@.len(),
            split(t@.take(i as int), sep).len() == out@.len() + 1,
            forall|k: int| 0 <= k < out@.len() ==> (#[trigger] out@[k])@ == split(t@.take(i as int), sep)[k],
            split(t@.take(i as int), sep).last() == t@.subrange(begin as int, i as int),
        decreases t@.len() - i,
    {
        assert(t@.take(i + 1).drop_last() =~= t@.take(i as int));
        if t[i] == sep {
            out.push(slice_subrange(t, begin, i));
            begin = i + 1;
            assert(t@.subrange(begin as int, begin as int) =~= Seq::<u8>::empty());
        } else {
            assert(t@.subrange(begin as int, i + 1) =~= t@.subrange(begin as int, i as int).push(
                t@[i as int],
            ));
        }
        i = i + 1;
    }
    assert(t@.take(i as int) =~= t@);
    out.push(slice_subrange(t, begin, i));
    out
}

/// Reads a number of at most `max_len` digits in base 10 or 16.
fn read_number(t: &[u8], hex: bool, max_len: usize) -> (r: Option<u32>)
    requires
        max_len <= 4,
    ensures
        r is Some <==> 1 <= t@.len() <= max_len && forall|i: int|
            0 <= i < t@.len() ==> if hex {
                is_hex_digit(#[trigger] t@[i])
            } else {
                is_digit(#[trigger] t@[i])
            },
        r matches Some(v) ==> v == number(
            t@,
            if hex {
                16
            } else {
                10
            },
        ),
{
    if t.len() == 0 || t.len() > max_len {
        return None;
    }
    let base: u32 = if hex {
        16
    } else {
        10
    };
    let mut acc: u32 = 0;
    let mut i: usize = 0;
    assert(t@.take(0) =~= Seq::<u8>::empty());
    while i < t.len()
        invariant
            0 <= i <= t@.len() <= 4,
            base == if hex {
                16u32
            } else {
                10u32
            },
            forall|k: int|
                0 <= k < i ==> if hex {
                    is_hex_digit(#[trigger] t@[k])
                } else {
                    is_digit(#[trigger] t@[k])
                },
            acc == number(t@.take(i as int), base as nat),
            i == 0 ==> acc == 0,
            i == 1 ==> acc < 16,
            i == 2 ==> acc < 256,
            i == 3 ==> acc < 4096,
            i == 4 ==> acc < 65536,
        decreases t@.len() - i,
    {
        let b: u8 = t[i];
        let d: u32 = if b >= 0x30 && b <= 0x39 {
            (b - 0x30) as u32
        } else if hex && b >= 0x41 && b <= 0x46 {
            (b - 0x41 + 10) as u32
        } else if hex && b >= 0x61 && b <= 0x66 {
            (b - 0x61 + 10) as u32
        } else {
            return None;
        };
        assert(t@.take(i + 1).drop_last() =~= t@.take(i as int));
        acc = acc * base + d;
        i = i + 1;
    }
    assert(t@.take(i as int) =~= t@);
    Some(acc)
}

/// Reads one byte of an IPv4 address.
fn read_octet(t: &[u8]) -> (r: Option<u32>)
    ensures
        r is Some <==> is_octet(t@),
        r matches Some(v) ==> v == number(t@, 10) && v <= 255,
{
    if t.len() > 1 && t[0] == 0x30 {
        return None;
    }
    match read_number(t, false, 3) {
        Some(v) => if v <= 255 {
            Some(v)
        } else {
            None
        },
        None => None,
    }
}

/// Reads an IPv4 address in dotted decimal.
pub fn parse_ipv4(t: &[u8]) -> (r: Option<u32>)
    ensures
        r == ipv4_text(t@),
{
    let fields = split_fields(t, DOT);
    if fields.len() != 4 {
        return None;
    }
    let a = read_octet(fields[0]);
    let b = read_octet(fields[1]);
    let c = read_octet(fields[2]);
    let d = read_octet(fields[3]);
    match (a, b, c, d) {
        (Some(a), Some(b), Some(c), Some(d)) => Some(((a * 256 + b) * 256 + c) * 256 + d),
        _ => None,
    }
}

/// Whether two colons in a row stand at `k`.
pub open spec fn pair_at(t: Seq<u8>, k: int) -> bool {
    0 <= k && k + 1 < t.len() && t[k] == COLON && t[k + 1] == COLON
}

/// Whether the first two colons in a row stand at `k`.
pub open spec fn first_pair_at(t: Seq<u8>, k: int) -> bool {
    pair_at(t, k) && forall|j: int| 0 <= j < k ==> !pair_at(t, j)
}

/// The groups that the fields write, if each of them writes one.
pub open spec fn field_groups(f: Seq<Seq<u8>>) -> Option<Seq<u16>> {
    if forall|i: int| 0 <= i < f.len() ==> is_group(#[trigger] f[i]) {
        Some(Seq::new(f.len(), |i: int| number(f[i], 16) as u16))
    } else {
        None
    }
}

/// The groups that `t` writes as a list of hexadecimal groups separated by
/// colons. The empty text writes no group.
pub open spec fn hex_groups(t: Seq<u8>) -> Option<Seq<u16>> {
    if t.len() == 0 {
        Some(Seq::empty())
    } else {
        field_groups(split(t, COLON))
    }
}

/// The groups that `t` writes as a list of hexadecimal groups separated by
/// colons, where an IPv4 address in dotted decimal may stand in the place of
/// the last two groups.
pub open spec fn groups(t: Seq<u8>) -> Option<Seq<u16>> {
    if t.len() == 0 {
        Some(Seq::empty())
    } else {
        let f = split(t, COLON);
        match field_groups(f.drop_last()) {
            None => None,
            Some(g) => if is_group(f.last()) {
                Some(g.push(number(f.last(), 16) as u16))
            } else {
                match ipv4_text(f.last()) {
                    Some(v) => Some(g.push((v / 65536) as u16).push((v % 65536) as u16)),
                    None => None,
                }
            },
        }
    }
}

/// The number that the groups write, the first being the most significant.
pub open spec fn joined(g: Seq<u16>) -> nat
    decreases g.len(),
{
    if g.len() == 0 {
        0
    } else {
        joined(g.drop_last()) * 65536 + g.last() as nat
    }
}

/// `n` groups of zero.
pub open spec fn zeros(n: int) -> Seq<u16> {
    Seq::new(n as nat, |i: int| 0u16)
}

/// The IPv6 address that `t` writes, if it writes one: either eight groups,
/// or fewer groups with two colons in a row at one place, which stand for as
/// many groups of zero as are missing, at least one.
pub open spec fn ipv6_text(t: Seq<u8>) -> Option<u128> {
    if exists|k: int| pair_at(t, k) {
        let k = choose|k: int| first_pair_at(t, k);
        match (hex_groups(t.take(k)), groups(t.skip(k + 2))) {
            (Some(head), Some(tail)) => if head.len() + tail.len() <= 7 {
                Some(joined(head + zeros(8 - head.len() - tail.len()) + tail) as u128)
            } else {
                None
            },
            _ => None,
        }
    } else {
        match groups(t) {
            Some(g) => if g.len() == 8 {
                Some(joined(g) as u128)
            } else {
                None
            },
            None => None,
        }
    }
}

/// Finds the first two colons in a row.
fn find_pair(t: &[u8]) -> (r: Option<usize>)
    ensures
        match r {
            Some(k) => first_pair_at(t@, k as int),
            None => forall|k: int| !pair_at(t@, k),
        },
{
    if t.len() < 2 {
        return None;
    }
    let mut i: usize = 0;
    while i < t.len() - 1
        invariant
            t@.len() >= 2,
            forall|j: int| 0 <= j < i ==> !pair_at(t@, j),
        decreases t@.len() - i,
    {
        if t[i] == COLON && t[i + 1] == COLON {
            return Some(i);
        }
        i = i + 1;
    }
    None
}

/// Reads a list of groups separated by colons, with or without leave for an
/// IPv4 address in the last place.
fn read_groups(t: &[u8], dotted_tail: bool) -> (r: Option<Vec<u16>>)
    ensures
        match r {
            Some(v) => Some(v@) == if dotted_tail {
                groups(t@)
            } else {
                hex_groups(t@)
            },
            None => if dotted_tail {
                groups(t@) is None
            } else {
                hex_groups(t@) is None
            },
        },
{
    let mut out: Vec<u16> = Vec::new();
    if t.len() == 0 {
        return Some(out);
    }
    let fields = split_fields(t, COLON);
    let ghost f = split(t@, COLON);
    assert(f.len() >= 1) by {
        lemma_split_nonempty(t@, COLON);
    }
    let n: usize = fields.len();
    let mut i: usize = 0;
    while i + 1 < n
        invariant
            t@.len() > 0,
            f == split(t@, COLON),
            n == fields@.len() == f.len(),
            n >= 1,
            0 <= i < n,
            forall|k: int| 0 <= k < n ==> (#[trigger] fields@[k])@ == f[k],
            forall|k: int| 0 <= k < i ==> is_group(#[trigger] f[k]),
            out@.len() == i,
            forall|k: int| 0 <= k < i ==> out@[k] as nat == number(f[k], 16),
        decreases n - i,
    {
        match read_number(fields[i], true, 4) {
            Some(v) => {
                assert(v < 65536) by {
                    lemma_group_bound(f[i as int]);
                }
                out.push(v as u16);
            },
            None => {
                assert(!is_group(f[i as int]));
                assert(!is_group(f.drop_last()[i as int]));
                return None;
            },
        }
        i = i + 1;
    }
    assert(field_groups(f.drop_last()) == Some(out@)) by {
        assert forall|k: int| 0 <= k < f.drop_last().len() implies is_group(
            #[trigger] f.drop_last()[k],
        ) by {
            assert(is_group(f[k]));
        }
        assert(out@ =~= Seq::new(f.drop_last().len(), |k: int| number(f.drop_last()[k], 16) as u16));
    }
    let last = fields[n - 1];
    assert(last@ == f.last());
    match read_number(last, true, 4) {
        Some(v) => {
            assert(v < 65536) by {
                lemma_group_bound(f.last());
            }
            out.push(v as u16);
            proof {
                if !dotted_tail {
                    assert(out@ =~= Seq::new(f.len(), |k: int| number(f[k], 16) as u16));
                }
            }
            Some(out)
        },
        None => {
            if dotted_tail {
                match parse_ipv4(last) {
                    Some(v) => {
                        out.push((v / 65536) as u16);
                        out.push((v % 65536) as u16);
                        Some(out)
                    },
                    None => None,
                }
            } else {
                None
            }
        },
    }
}

/// A text always has at least one field.
proof fn lemma_split_nonempty(t: Seq<u8>, sep: u8)
    ensures
        split(t, sep).len() >= 1,
    decreases t.len(),
{
    if t.len() > 0 {
        lemma_split_nonempty(t.drop_last(), sep);
    }
}

/// A group is worth less than 65536.
proof fn lemma_group_bound(t: Seq<u8>)
    requires
        is_group(t),
    ensures
        number(t, 16) < 65536,
{
    reveal_with_fuel(number, 5);
    let a = t.drop_last();
    let b = a.drop_last();
    let c = b.drop_last();
    if t.len() >= 1 {
        assert(is_hex_digit(t[t.len() - 1]));
    }
    if t.len() >= 2 {
        assert(is_hex_digit(t[t.len() - 2]));
        assert(a.last() == t[t.len() - 2]);
    }
    if t.len() >= 3 {
        assert(is_hex_digit(t[t.len() - 3]));
        assert(b.last() == t[t.len() - 3]);
    }
    if t.len() >= 4 {
        assert(is_hex_digit(t[t.len() - 4]));
        assert(c.last() == t[t.len() - 4]);
    }
}

/// Puts the groups of an address together, with groups of zero between
/// `head` and `tail` to make eight.
fn join_groups(head: &Vec<u16>, tail: &Vec<u16>) -> (r: u128)
    requires
        head@.len() + tail@.len() <= 8,
    ensures
        r == joined(head@ + zeros(8 - head@.len() - tail@.len()) + tail@),
{
    let mut all: Vec<u16> = Vec::new();
    let mut i: usize = 0;
    while i < head.len()
        invariant
            0 <= i <= head@.len(),
            all@ == head@.take(i as int),
        decreases head@.len() - i,
    {
        all.push(head[i]);
        assert(all@ =~= head@.take(i + 1));
        i = i + 1;
    }
    assert(all@ =~= head@);
    let fill: usize = 8 - head.len() - tail.len();
    let mut j: usize = 0;
    while j < fill
        invariant
            0 <= j <= fill,
            all@ == head@ + zeros(j as int),
        decreases fill - j,
    {
        all.push(0);
        assert(all@ =~= head@ + zeros(j + 1));
        j = j + 1;
    }
    let mut k: usize = 0;
    while k < tail.len()
        invariant
            0 <= k <= tail@.len(),
            all@ == head@ + zeros(fill as int) + tail@.take(k as int),
        decreases tail@.len() - k,
    {
        all.push(tail[k]);
        assert(all@ =~= head@ + zeros(fill as int) + tail@.take(k + 1));
        k = k + 1;
    }
    assert(all@ =~= head@ + zeros(fill as int) + tail@);
    assert(all@.len() == 8);
    let mut acc: u128 = 0;
    let mut m: usize = 0;
    assert(all@.take(0) =~= Seq::<u16>::empty());
    while m < 8
        invariant
            0 <= m <= 8,
            all@.len() == 8,
            acc == joined(all@.take(m as int)),
            m == 0 ==> acc == 0,
            m == 1 ==> acc < 0x1_0000,
            m == 2 ==> acc < 0x1_0000_0000,
            m == 3 ==> acc < 0x1_0000_0000_0000,
            m == 4 ==> acc < 0x1_0000_0000_0000_0000,
            m == 5 ==> acc < 0x1_0000_0000_0000_0000_0000,
            m == 6 ==> acc < 0x1_0000_0000_0000_0000_0000_0000,
            m == 7 ==> acc < 0x1_0000_0000_0000_0000_0000_0000_0000,
        decreases 8 - m,
    {
        assert(all@.take(m + 1).drop_last() =~= all@.take(m as int));
        acc = acc * 65536 + all[m] as u128;
        m = m + 1;
    }
    assert(all@.take(8) =~= all@);
    acc
}

/// Reads an IPv6 address.
pub fn parse_ipv6(t: &[u8]) -> (r: Option<u128>)
    ensures
        r == ipv6_text(t@),
{
    match find_pair(t) {
        Some(k) => {
            proof {
                let c = choose|c: int| first_pair_at(t@, c);
                assert(pair_at(t@, k as int));
                assert(first_pair_at(t@, c));
                assert(c == k);
            }
            let n: usize = t.len();
            let head = read_groups(slice_subrange(t, 0, k), false);
            let tail = read_groups(slice_subrange(t, k + 2, n), true);
            assert(t@.take(k as int) =~= t@.subrange(0, k as int));
            assert(t@.skip(k + 2) =~= t@.subrange(k + 2, t@.len() as int));
            match (head, tail) {
                (Some(h), Some(l)) => {
                    if h.len() <= 7 && l.len() <= 7 - h.len() {
                        Some(join_groups(&h, &l))
                    } else {
                        None
                    }
                },
                _ => None,
            }
        },
        None => {
            match read_groups(t, true) {
                Some(g) => {
                    if g.len() == 8 {
                        let none: Vec<u16> = Vec::new();
                        assert(g@ + zeros(0) + none@ =~= g@);
                        Some(join_groups(&g, &none))
                    } else {
                        None
                    }
                },
                None => None,
            }
        },
    }
}

/// The address that `t` writes, if it writes one of either family.
pub open spec fn address_text(t: Seq<u8>) -> Option<IpAddress> {
    match ipv4_text(t) {
        Some(v) => Some(IpAddress::V4(v)),
        None => match ipv6_text(t) {
            Some(v) => Some(IpAddress::V6(v)),
            None => None,
        },
    }
}

/// Reads an address of either family.
pub fn parse_address(t: &[u8]) -> (r: Option<IpAddress>)
    ensures
        r == address_text(t@),
{
    match parse_ipv4(t) {
        Some(v) => Some(IpAddress::V4(v)),
        None => match parse_ipv6(t) {
            Some(v) => Some(IpAddress::V6(v)),
            None => None,
        },
    }
}

} // verus!
