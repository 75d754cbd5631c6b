//! The byte form of a database: for IPv4 and then for IPv6, the number of
//! starts in eight bytes, least significant first, the starts in network
//! byte order, the number of values, and the value slots, each a zero byte
//! or a one byte and the bytes of a value.

use crate::addr::{pow256, Address, Families};
use crate::data::{is_upper, CountryCode, IpData};
use crate::database::DbIpDatabase;
use crate::index::{ascending, compressed, RangeIndex};
use crate::region::Region;
use vstd::bytes::{
    lemma_auto_spec_u64_to_from_le_bytes, spec_u64_from_le_bytes, spec_u64_to_le_bytes,
    u64_from_le_bytes, u64_to_le_bytes,
};
use vstd::prelude::*;
use vstd::slice::slice_subrange;

verus! {

/// The `width` bytes that hold `x`, most significant first.
pub open spec fn be_bytes(x: nat, width: nat) -> Seq<u8>
    decreases width,
{
    if width == 0 {
        Seq::empty()
    } else {
        be_bytes(x / 256, (width - 1) as nat).push((x % 256) as u8)
    }
}

/// The number that the bytes hold, most significant first.
pub open spec fn be_value(b: Seq<u8>) -> nat
    decreases b.len(),
{
    if b.len() == 0 {
        0
    } else {
        be_value(b.drop_last()) * 256 + b.last() as nat
    }
}

/// A number in `width` bytes takes `width` bytes.
pub proof fn lemma_be_bytes_len(x: nat, width: nat)
    ensures
        be_bytes(x, width).len() == width,
    decreases width,
{
    if width > 0 {
        lemma_be_bytes_len(x / 256, (width - 1) as nat);
    }
}

/// A number that fits into `width` bytes is read back from them.
pub proof fn lemma_be_value_of_bytes(x: nat, width: nat)
    requires
        x < pow256(width),
    ensures
        be_value(be_bytes(x, width)) == x,
    decreases width,
{
    if width > 0 {
        lemma_be_value_of_bytes(x / 256, (width - 1) as nat);
        assert(be_bytes(x, width).drop_last() =~= be_bytes(x / 256, (width - 1) as nat));
    }
}

/// Bytes hold a number that fits into them.
pub proof fn lemma_be_value_bound(b: Seq<u8>)
    ensures
        be_value(b) < pow256(b.len()),
    decreases b.len(),
{
    if b.len() > 0 {
        lemma_be_value_bound(b.drop_last());
    }
}

/// More bytes hold more values.
pub proof fn lemma_pow256_increases(a: nat, b: nat)
    requires
        a <= b,
    ensures
        1 <= pow256(a) <= pow256(b),
    decreases b,
{
    if b > 0 {
        if a < b {
            lemma_pow256_increases(a, (b - 1) as nat);
        } else {
            lemma_pow256_increases((a - 1) as nat, (b - 1) as nat);
        }
    }
}

/// Writes `x` in `width` bytes, most significant first.
pub fn put_be(x: u128, width: usize, out: &mut Vec<u8>)
    ensures
        final(out)@ == old(out)@ + be_bytes(x as nat, width as nat),
    decreases width,
{
    if width > 0 {
        put_be(x / 256, width - 1, out);
        out.push((x % 256) as u8);
        assert(out@ =~= old(out)@ + be_bytes(x as nat, width as nat));
    } else {
        assert(out@ =~= old(out)@ + be_bytes(x as nat, width as nat));
    }
}

/// Reads a number of at most sixteen bytes, most significant first.
pub fn take_be(b: &[u8]) -> (r: u128)
    requires
        b@.len() <= 16,
    ensures
        r == be_value(b@),
{
    let mut acc: u128 = 0;
    let mut i: usize = 0;
    assert(b@.take(0) =~= Seq::<u8>::empty());
    while i < b.len()
        invariant
            0 <= i <= b@.len() <= 16,
            acc == be_value(b@.take(i as int)),
        decreases b@.len() - i,
    {
        proof {
            lemma_be_value_bound(b@.take(i as int));
            lemma_pow256_increases(i as nat, 15);
            reveal_with_fuel(pow256, 17);
            assert(b@.take(i + 1).drop_last() =~= b@.take(i as int));
        }
        acc = acc * 256 + b[i] as u128;
        i = i + 1;
    }
    assert(b@.take(i as int) =~= b@);
    acc
}

/// A value that has a byte form of fixed width.
pub trait Payload: Copy + Sized {
    /// The number of bytes of a value.
    spec fn width() -> nat;

    /// The bytes of the value.
    spec fn bytes(self) -> Seq<u8>;

    /// The value that the bytes hold, if they hold one.
    spec fn parsed(b: Seq<u8>) -> Option<Self>;

    /// Every value takes as many bytes.
    proof fn lemma_bytes_len(self)
        ensures
            self.bytes().len() == Self::width(),
    ;

    /// The number of bytes of a value.
    fn width_bytes() -> (r: usize)
        ensures
            r == Self::width(),
    ;

    /// Writes the value behind `out`. A value that can be written can be
    /// read back.
    fn put(&self, out: &mut Vec<u8>)
        ensures
            final(out)@ == old(out)@ + self.bytes(),
            Self::parsed(self.bytes()) == Some(*self),
    ;

    /// Reads a value.
    fn take(b: &[u8]) -> (r: Option<Self>)
        requires
            b@.len() == Self::width(),
        ensures
            r == Self::parsed(b@),
    ;
}

impl Payload for CountryCode {
    open spec fn width() -> nat {
        2
    }

    open spec fn bytes(self) -> Seq<u8> {
        seq![self.letters().0, self.letters().1]
    }

    open spec fn parsed(b: Seq<u8>) -> Option<Self> {
        if b.len() == 2 && is_upper(b[0]) && is_upper(b[1]) {
            Some(CountryCode::of(b[0], b[1]))
        } else {
            None
        }
    }

    proof fn lemma_bytes_len(self) {
    }

    fn width_bytes() -> (r: usize) {
        2
    }

    fn put(&self, out: &mut Vec<u8>) {
        let letters = self.as_bytes();
        out.push(letters[0]);
        out.push(letters[1]);
        proof {
            self.lemma_letters();
            assert(out@ =~= old(out)@ + self.bytes());
        }
    }

    fn take(b: &[u8]) -> (r: Option<Self>) {
        if b[0] >= 0x41 && b[0] <= 0x5a && b[1] >= 0x41 && b[1] <= 0x5a {
            CountryCode::from_bytes(b)
        } else {
            None
        }
    }
}

impl Region {
    /// The number of the region.
    pub open spec fn number(self) -> u8 {
        match self {
            Region::Africa => 0,
            Region::Asia => 1,
            Region::Europe => 2,
            Region::NorthAmerica => 3,
            Region::Oceania => 4,
            Region::SouthAmerica => 5,
        }
    }

    /// The region with the given number.
    pub open spec fn numbered(n: u8) -> Option<Region> {
        if n == 0 {
            Some(Region::Africa)
        } else if n == 1 {
            Some(Region::Asia)
        } else if n == 2 {
            Some(Region::Europe)
        } else if n == 3 {
            Some(Region::NorthAmerica)
        } else if n == 4 {
            Some(Region::Oceania)
        } else if n == 5 {
            Some(Region::SouthAmerica)
        } else {
            None
        }
    }
}

impl Payload for Region {
    open spec fn width() -> nat {
        4
    }

    open spec fn bytes(self) -> Seq<u8> {
        seq![self.number(), 0u8, 0u8, 0u8]
    }

    open spec fn parsed(b: Seq<u8>) -> Option<Self> {
        if b.len() == 4 && b[1] == 0 && b[2] == 0 && b[3] == 0 {
            Region::numbered(b[0])
        } else {
            None
        }
    }

    proof fn lemma_bytes_len(self) {
    }

    fn width_bytes() -> (r: usize) {
        4
    }

    fn put(&self, out: &mut Vec<u8>) {
        let n: u8 = match self {
            Region::Africa => 0,
            Region::Asia => 1,
            Region::Europe => 2,
            Region::NorthAmerica => 3,
            Region::Oceania => 4,
            Region::SouthAmerica => 5,
        };
        out.push(n);
        out.push(0);
        out.push(0);
        out.push(0);
        assert(out@ =~= old(out)@ + self.bytes());
    }

    fn take(b: &[u8]) -> (r: Option<Self>) {
        if b[1] != 0 || b[2] != 0 || b[3] != 0 {
            return None;
        }
        let n: u8 = b[0];
        if n == 0 {
            Some(Region::Africa)
        } else if n == 1 {
            Some(Region::Asia)
        } else if n == 2 {
            Some(Region::Europe)
        } else if n == 3 {
            Some(Region::NorthAmerica)
        } else if n == 4 {
            Some(Region::Oceania)
        } else if n == 5 {
            Some(Region::SouthAmerica)
        } else {
            None
        }
    }
}

/// The starts of the entries.
pub open spec fn starts_of<V>(entries: Seq<(nat, Option<V>)>) -> Seq<nat> {
    Seq::new(entries.len(), |i: int| entries[i].0)
}

/// The values of the entries.
pub open spec fn values_of<V>(entries: Seq<(nat, Option<V>)>) -> Seq<Option<V>> {
    Seq::new(entries.len(), |i: int| entries[i].1)
}

/// The entries made of starts and their values.
pub open spec fn zipped<V>(starts: Seq<nat>, values: Seq<Option<V>>) -> Seq<(nat, Option<V>)> {
    Seq::new(starts.len(), |i: int| (starts[i], values[i]))
}

/// The bytes of a count: eight bytes, least significant first.
pub open spec fn length_bytes(n: nat) -> Seq<u8> {
    spec_u64_to_le_bytes(n as u64)
}

/// The bytes of the starts, each in `width` bytes.
pub open spec fn starts_bytes(starts: Seq<nat>, width: nat) -> Seq<u8>
    decreases starts.len(),
{
    if starts.len() == 0 {
        Seq::empty()
    } else {
        starts_bytes(starts.drop_last(), width) + be_bytes(starts.last(), width)
    }
}

/// The bytes of a value slot: a zero byte for no value, a one byte and the
/// bytes of the value otherwise.
pub open spec fn slot_bytes<V: Payload>(slot: Option<V>) -> Seq<u8> {
    match slot {
        None => seq![0u8],
        Some(v) => seq![1u8] + v.bytes(),
    }
}

/// The bytes of the value slots.
pub open spec fn values_bytes<V: Payload>(values: Seq<Option<V>>) -> Seq<u8>
    decreases values.len(),
{
    if values.len() == 0 {
        Seq::empty()
    } else {
        values_bytes(values.drop_last()) + slot_bytes(values.last())
    }
}

/// The bytes of an index of a family whose addresses take `width` bytes.
pub open spec fn index_bytes<V: Payload>(entries: Seq<(nat, Option<V>)>, width: nat) -> Seq<u8> {
    length_bytes(entries.len()) + starts_bytes(starts_of(entries), width) + length_bytes(
        entries.len(),
    ) + values_bytes(values_of(entries))
}

/// The bytes of a database with the given entries for IPv4 and for IPv6:
/// the bytes of the index of each family that it holds.
pub open spec fn encoded<V: Payload>(
    families: Families,
    v4: Seq<(nat, Option<V>)>,
    v6: Seq<(nat, Option<V>)>,
) -> Seq<u8> {
    (if families.v4 {
        index_bytes(v4, 4)
    } else {
        Seq::empty()
    }) + (if families.v6 {
        index_bytes(v6, 16)
    } else {
        Seq::empty()
    })
}

/// The count at the head of `b`, and what follows it.
pub open spec fn take_length(b: Seq<u8>) -> Option<(nat, Seq<u8>)> {
    if b.len() < 8 {
        None
    } else {
        Some((spec_u64_from_le_bytes(b.take(8)) as nat, b.skip(8)))
    }
}

/// The `n` starts at the head of `b`, and what follows them.
pub open spec fn take_starts(b: Seq<u8>, n: nat, width: nat) -> Option<(Seq<nat>, Seq<u8>)>
    decreases n,
{
    if n == 0 {
        Some((Seq::empty(), b))
    } else if b.len() < width {
        None
    } else {
        match take_starts(b.skip(width as int), (n - 1) as nat, width) {
            Some((rest, tail)) => Some((seq![be_value(b.take(width as int))] + rest, tail)),
            None => None,
        }
    }
}

/// The value slot at the head of `b`, and what follows it.
pub open spec fn take_slot<V: Payload>(b: Seq<u8>) -> Option<(Option<V>, Seq<u8>)> {
    if b.len() == 0 {
        None
    } else if b[0] == 0 {
        Some((None, b.skip(1)))
    } else if b[0] == 1 && b.len() >= 1 + V::width() {
        match V::parsed(b.subrange(1, 1 + V::width() as int)) {
            Some(v) => Some((Some(v), b.skip(1 + V::width() as int))),
            None => None,
        }
    } else {
        None
    }
}

/// The `n` value slots at the head of `b`, and what follows them.
pub open spec fn take_values<V: Payload>(b: Seq<u8>, n: nat) -> Option<(Seq<Option<V>>, Seq<u8>)>
    decreases n,
{
    if n == 0 {
        Some((Seq::empty(), b))
    } else {
        match take_slot::<V>(b) {
            Some((slot, after)) => match take_values::<V>(after, (n - 1) as nat) {
                Some((rest, tail)) => Some((seq![slot] + rest, tail)),
                None => None,
            },
            None => None,
        }
    }
}

/// The index at the head of `b`, and what follows it. There is none unless
/// the bytes hold as many values as starts, the starts increase, and no two
/// neighbouring values are equal.
pub open spec fn take_index<V: Payload>(b: Seq<u8>, width: nat) -> Option<
    (Seq<(nat, Option<V>)>, Seq<u8>),
> {
    match take_length(b) {
        Some((n, b1)) => match take_starts(b1, n, width) {
            Some((starts, b2)) => match take_length(b2) {
                Some((m, b3)) => match take_values::<V>(b3, m) {
                    Some((values, b4)) => if n == m && ascending(zipped(starts, values))
                        && compressed(zipped(starts, values)) {
                        Some((zipped(starts, values), b4))
                    } else {
                        None
                    },
                    None => None,
                },
                None => None,
            },
            None => None,
        },
        None => None,
    }
}

/// The index of a family at the head of `b`, and what follows it, where the
/// family is held; no entries and all of `b` where it is not.
pub open spec fn take_family<V: Payload>(held: bool, b: Seq<u8>, width: nat) -> Option<
    (Seq<(nat, Option<V>)>, Seq<u8>),
> {
    if held {
        take_index::<V>(b, width)
    } else {
        Some((Seq::empty(), b))
    }
}

/// The entries for IPv4 and for IPv6 of the database of the given families
/// that `b` holds, if it holds one and nothing more.
pub open spec fn decoded<V: Payload>(families: Families, b: Seq<u8>) -> Option<
    (Seq<(nat, Option<V>)>, Seq<(nat, Option<V>)>),
> {
    match take_family::<V>(families.v4, b, 4) {
        Some((v4, rest)) => match take_family::<V>(families.v6, rest, 16) {
            Some((v6, tail)) => if tail.len() == 0 {
                Some((v4, v6))
            } else {
                None
            },
            None => None,
        },
        None => None,
    }
}

/// Whether each value of the entries is read back from its bytes.
pub open spec fn readable<V: Payload>(entries: Seq<(nat, Option<V>)>) -> bool {
    forall|i: int|
        0 <= i < entries.len() ==> match (#[trigger] entries[i]).1 {
            Some(v) => V::parsed(v.bytes()) == Some(v),
            None => true,
        }
}

/// Whether the entries can be held in bytes for a family whose addresses
/// take `width` bytes: they form a valid index within the family, and not
/// more entries than a count can tell.
pub open spec fn storable<V: Payload>(entries: Seq<(nat, Option<V>)>, width: nat) -> bool {
    &&& ascending(entries)
    &&& compressed(entries)
    &&& readable(entries)
    &&& entries.len() <= u64::MAX
    &&& forall|i: int| 0 <= i < entries.len() ==> (#[trigger] entries[i]).0 < pow256(width)
}

/// The bytes of the starts begin with those of the first start.
proof fn lemma_starts_bytes_front(starts: Seq<nat>, width: nat)
    requires
        starts.len() > 0,
    ensures
        starts_bytes(starts, width) == be_bytes(starts[0], width) + starts_bytes(
            starts.drop_first(),
            width,
        ),
    decreases starts.len(),
{
    if starts.len() == 1 {
        assert(starts.drop_last() =~= Seq::<nat>::empty());
        assert(starts.drop_first() =~= Seq::<nat>::empty());
        assert(starts_bytes(starts, width) =~= be_bytes(starts[0], width) + starts_bytes(
            starts.drop_first(),
            width,
        ));
    } else {
        lemma_starts_bytes_front(starts.drop_last(), width);
        assert(starts.drop_last().drop_first() =~= starts.drop_first().drop_last());
        assert(starts_bytes(starts, width) =~= be_bytes(starts[0], width) + starts_bytes(
            starts.drop_first(),
            width,
        ));
    }
}

/// The bytes of the value slots begin with those of the first slot.
proof fn lemma_values_bytes_front<V: Payload>(values: Seq<Option<V>>)
    requires
        values.len() > 0,
    ensures
        values_bytes(values) == slot_bytes(values[0]) + values_bytes(values.drop_first()),
    decreases values.len(),
{
    if values.len() == 1 {
        assert(values.drop_last() =~= Seq::<Option<V>>::empty());
        assert(values.drop_first() =~= Seq::<Option<V>>::empty());
        assert(values_bytes(values) =~= slot_bytes(values[0]) + values_bytes(
            values.drop_first(),
        ));
    } else {
        lemma_values_bytes_front(values.drop_last());
        assert(values.drop_last().drop_first() =~= values.drop_first().drop_last());
        assert(values_bytes(values) =~= slot_bytes(values[0]) + values_bytes(
            values.drop_first(),
        ));
    }
}

/// A count is read back from its bytes.
proof fn lemma_length_read_back(n: nat, tail: Seq<u8>)
    requires
        n <= u64::MAX,
    ensures
        take_length(length_bytes(n) + tail) == Some((n, tail)),
{
    lemma_auto_spec_u64_to_from_le_bytes();
    let b = length_bytes(n) + tail;
    assert(b.take(8) =~= length_bytes(n));
    assert(b.skip(8) =~= tail);
}

/// Starts are read back from their bytes.
proof fn lemma_starts_read_back(starts: Seq<nat>, width: nat, tail: Seq<u8>)
    requires
        forall|i: int| 0 <= i < starts.len() ==> starts[i] < pow256(width),
    ensures
        take_starts(starts_bytes(starts, width) + tail, starts.len(), width) == Some(
            (starts, tail),
        ),
    decreases starts.len(),
{
    let b = starts_bytes(starts, width) + tail;
    if starts.len() == 0 {
        assert(b =~= tail);
    } else {
        let rest = starts.drop_first();
        lemma_starts_bytes_front(starts, width);
        lemma_be_bytes_len(starts[0], width);
        lemma_be_value_of_bytes(starts[0], width);
        assert(b.take(width as int) =~= be_bytes(starts[0], width));
        assert(b.skip(width as int) =~= starts_bytes(rest, width) + tail);
        lemma_starts_read_back(rest, width, tail);
        assert(seq![starts[0]] + rest =~= starts);
    }
}

/// Value slots are read back from their bytes.
proof fn lemma_values_read_back<V: Payload>(values: Seq<Option<V>>, tail: Seq<u8>)
    requires
        forall|i: int|
            0 <= i < values.len() ==> match #[trigger] values[i] {
                Some(v) => V::parsed(v.bytes()) == Some(v),
                None => true,
            },
    ensures
        take_values::<V>(values_bytes(values) + tail, values.len()) == Some((values, tail)),
    decreases values.len(),
{
    let b = values_bytes(values) + tail;
    if values.len() == 0 {
        assert(b =~= tail);
    } else {
        let rest = values.drop_first();
        lemma_values_bytes_front(values);
        let after = values_bytes(rest) + tail;
        match values[0] {
            None => {
                assert(b.skip(1) =~= after);
            },
            Some(v) => {
                v.lemma_bytes_len();
                assert(b.subrange(1, 1 + V::width() as int) =~= v.bytes());
                assert(b.skip(1 + V::width() as int) =~= after);
            },
        }
        assert(take_slot::<V>(b) == Some((values[0], after)));
        assert forall|i: int| 0 <= i < rest.len() implies match #[trigger] rest[i] {
            Some(v) => V::parsed(v.bytes()) == Some(v),
            None => true,
        } by {
            assert(rest[i] == values[i + 1]);
        }
        lemma_values_read_back(rest, tail);
        assert(seq![values[0]] + rest =~= values);
    }
}

/// An index is read back from its bytes.
pub proof fn lemma_index_read_back<V: Payload>(
    entries: Seq<(nat, Option<V>)>,
    width: nat,
    tail: Seq<u8>,
)
    requires
        storable(entries, width),
    ensures
        take_index::<V>(index_bytes(entries, width) + tail, width) == Some((entries, tail)),
{
    let n = entries.len();
    let starts = starts_of(entries);
    let values = values_of(entries);
    let t3 = values_bytes(values) + tail;
    let t2 = length_bytes(n) + t3;
    let t1 = starts_bytes(starts, width) + t2;
    assert(index_bytes(entries, width) + tail =~= length_bytes(n) + t1);
    lemma_length_read_back(n, t1);
    lemma_starts_read_back(starts, width, t2);
    lemma_length_read_back(n, t3);
    lemma_values_read_back(values, tail);
    assert(zipped(starts, values) =~= entries);
}

/// Reading the bytes of a database gives the database back: the same
/// entries, and so the same value for every address.
pub proof fn lemma_read_back<V: Payload>(
    families: Families,
    v4: Seq<(nat, Option<V>)>,
    v6: Seq<(nat, Option<V>)>,
)
    requires
        if families.v4 {
            storable(v4, 4)
        } else {
            v4.len() == 0
        },
        if families.v6 {
            storable(v6, 16)
        } else {
            v6.len() == 0
        },
    ensures
        decoded::<V>(families, encoded(families, v4, v6)) == Some((v4, v6)),
{
    let second = if families.v6 {
        index_bytes(v6, 16)
    } else {
        Seq::<u8>::empty()
    };
    if families.v4 {
        lemma_index_read_back(v4, 4, second);
    } else {
        assert(v4 =~= Seq::empty());
        assert(encoded(families, v4, v6) =~= second);
    }
    if families.v6 {
        lemma_index_read_back(v6, 16, Seq::<u8>::empty());
        assert(index_bytes(v6, 16) + Seq::<u8>::empty() =~= index_bytes(v6, 16));
    } else {
        assert(v6 =~= Seq::empty());
    }
}

/// The positions of the addresses.
pub open spec fn positions<A: Address>(starts: Seq<A>) -> Seq<nat> {
    Seq::new(starts.len(), |i: int| starts[i].pos())
}

/// Writes a count.
fn put_length(n: usize, out: &mut Vec<u8>)
    ensures
        final(out)@ == old(out)@ + length_bytes(n as nat),
{
    let mut bytes = u64_to_le_bytes(n as u64);
    out.append(&mut bytes);
}

/// Writes an index.
fn put_index<A: Address, V: IpData + Payload>(index: &RangeIndex<A, V>, out: &mut Vec<u8>)
    requires
        index.wf(),
    ensures
        final(out)@ == old(out)@ + index_bytes(index@, A::width()),
        storable(index@, A::width()),
{
    let starts = index.starts();
    let values = index.values();
    let n: usize = starts.len();
    let width: usize = A::width_bytes();
    let ghost s = starts_of(index@);
    let ghost v = values_of(index@);
    put_length(n, out);
    let ghost head = out@;
    let mut i: usize = 0;
    assert(s.take(0) =~= Seq::<nat>::empty());
    assert(out@ =~= head + starts_bytes(s.take(0), A::width()));
    while i < n
        invariant
            0 <= i <= n,
            n == starts@.len() == index@.len(),
            width == A::width(),
            s == starts_of(index@),
            forall|k: int| 0 <= k < n ==> (#[trigger] starts@[k]).pos() == index@[k].0,
            out@ == head + starts_bytes(s.take(i as int), A::width()),
            forall|k: int| 0 <= k < i ==> (#[trigger] index@[k]).0 < pow256(A::width()),
        decreases n - i,
    {
        proof {
            starts@[i as int].lemma_pos_bounded();
            A::lemma_width();
            assert(s.take(i + 1).drop_last() =~= s.take(i as int));
            assert(s.take(i + 1).last() == index@[i as int].0);
        }
        put_be(starts[i].widen(), width, out);
        assert(out@ =~= head + starts_bytes(s.take(i + 1), A::width()));
        i = i + 1;
    }
    assert(s.take(n as int) =~= s);
    put_length(n, out);
    let ghost middle = out@;
    let mut j: usize = 0;
    assert(v.take(0) =~= Seq::<Option<V>>::empty());
    assert(out@ =~= middle + values_bytes(v.take(0)));
    while j < n
        invariant
            0 <= j <= n,
            n == values@.len() == index@.len(),
            v == values_of(index@),
            forall|k: int| 0 <= k < n ==> #[trigger] values@[k] == index@[k].1,
            out@ == middle + values_bytes(v.take(j as int)),
            forall|k: int|
                0 <= k < j ==> match (#[trigger] index@[k]).1 {
                    Some(x) => V::parsed(x.bytes()) == Some(x),
                    None => true,
                },
        decreases n - j,
    {
        proof {
            assert(v.take(j + 1).drop_last() =~= v.take(j as int));
            assert(v.take(j + 1).last() == index@[j as int].1);
        }
        match values[j] {
            None => {
                out.push(0);
            },
            Some(x) => {
                out.push(1);
                x.put(out);
            },
        }
        assert(out@ =~= middle + values_bytes(v.take(j + 1)));
        j = j + 1;
    }
    assert(v.take(n as int) =~= v);
    assert(out@ =~= old(out)@ + index_bytes(index@, A::width()));
}

/// Reads a count.
fn read_length(b: &[u8], at: usize) -> (r: Option<(u64, usize)>)
    requires
        at <= b@.len(),
    ensures
        match take_length(b@.skip(at as int)) {
            Some((n, rest)) => r matches Some((m, end)) && m == n && at + 8 == end <= b@.len()
                && rest == b@.skip(end as int),
            None => r is None,
        },
{
    if b.len() - at < 8 {
        return None;
    }
    let n = u64_from_le_bytes(slice_subrange(b, at, at + 8));
    assert(b@.skip(at as int).take(8) =~= b@.subrange(at as int, at + 8));
    assert(b@.skip(at as int).skip(8) =~= b@.skip(at + 8));
    Some((n, at + 8))
}

/// Reads `n` starts.
fn read_starts<A: Address>(b: &[u8], at: usize, n: u64) -> (r: Option<(Vec<A>, usize)>)
    requires
        at <= b@.len(),
    ensures
        match take_starts(b@.skip(at as int), n as nat, A::width()) {
            Some((starts, rest)) => r matches Some((v, end)) && positions(v@) == starts && end
                <= b@.len() && rest == b@.skip(end as int),
            None => r is None,
        },
{
    let width: usize = A::width_bytes();
    let mut out: Vec<A> = Vec::new();
    let mut pos: usize = at;
    let mut i: u64 = 0;
    let ghost whole = take_starts(b@.skip(at as int), n as nat, A::width());
    proof {
        A::lemma_width();
        assert(positions(out@) =~= Seq::<nat>::empty());
        match whole {
            Some((starts, rest)) => {
                assert(Seq::<nat>::empty() + starts =~= starts);
            },
            None => {},
        }
    }
    while i < n
        invariant
            0 <= i <= n,
            at <= pos <= b@.len(),
            width == A::width(),
            1 <= width <= 16,
            whole == take_starts(b@.skip(at as int), n as nat, A::width()),
            whole == match take_starts(b@.skip(pos as int), (n - i) as nat, A::width()) {
                Some((rest, tail)) => Some((positions(out@) + rest, tail)),
                None => None,
            },
        decreases n - i,
    {
        if b.len() - pos < width {
            return None;
        }
        let x = take_be(slice_subrange(b, pos, pos + width));
        proof {
            lemma_be_value_bound(b@.subrange(pos as int, pos + width));
            A::lemma_width();
            assert(b@.skip(pos as int).take(width as int) =~= b@.subrange(
                pos as int,
                pos + width,
            ));
            assert(b@.skip(pos as int).skip(width as int) =~= b@.skip(pos + width));
        }
        let a = A::narrow(x);
        let ghost before = positions(out@);
        out.push(a);
        proof {
            assert(positions(out@) =~= before.push(x as nat));
            match take_starts(b@.skip(pos + width), (n - i - 1) as nat, A::width()) {
                Some((rest, tail)) => {
                    assert(before + (seq![x as nat] + rest) =~= positions(out@) + rest);
                },
                None => {},
            }
        }
        pos = pos + width;
        i = i + 1;
    }
    proof {
        assert(positions(out@) + Seq::<nat>::empty() =~= positions(out@));
    }
    Some((out, pos))
}

/// Reads `n` value slots.
fn read_values<V: Payload>(b: &[u8], at: usize, n: u64) -> (r: Option<(Vec<Option<V>>, usize)>)
    requires
        at <= b@.len(),
    ensures
        match take_values::<V>(b@.skip(at as int), n as nat) {
            Some((values, rest)) => r matches Some((v, end)) && v@ == values && end <= b@.len()
                && rest == b@.skip(end as int),
            None => r is None,
        },
{
    let width: usize = V::width_bytes();
    let mut out: Vec<Option<V>> = Vec::new();
    let mut pos: usize = at;
    let mut i: u64 = 0;
    let ghost whole = take_values::<V>(b@.skip(at as int), n as nat);
    proof {
        match whole {
            Some((values, rest)) => {
                assert(Seq::<Option<V>>::empty() + values =~= values);
            },
            None => {},
        }
    }
    while i < n
        invariant
            0 <= i <= n,
            at <= pos <= b@.len(),
            width == V::width(),
            whole == take_values::<V>(b@.skip(at as int), n as nat),
            whole == match take_values::<V>(b@.skip(pos as int), (n - i) as nat) {
                Some((rest, tail)) => Some((out@ + rest, tail)),
                None => None,
            },
        decreases n - i,
    {
        if pos >= b.len() {
            return None;
        }
        let tag: u8 = b[pos];
        assert(b@.skip(pos as int)[0] == b@[pos as int]);
        let ghost before = out@;
        let next: usize;
        let slot: Option<V>;
        if tag == 0 {
            slot = None;
            next = pos + 1;
            assert(b@.skip(pos as int).skip(1) =~= b@.skip(pos + 1));
        } else if tag == 1 {
            if b.len() - pos - 1 < width {
                return None;
            }
            assert(b@.skip(pos as int).subrange(1, 1 + width) =~= b@.subrange(
                pos + 1,
                pos + 1 + width,
            ));
            assert(b@.skip(pos as int).skip(1 + width) =~= b@.skip(pos + 1 + width));
            match V::take(slice_subrange(b, pos + 1, pos + 1 + width)) {
                Some(v) => {
                    slot = Some(v);
                    next = pos + 1 + width;
                },
                None => {
                    return None;
                },
            }
        } else {
            return None;
        }
        out.push(slot);
        proof {
            match take_values::<V>(b@.skip(next as int), (n - i - 1) as nat) {
                Some((rest, tail)) => {
                    assert(before + (seq![slot] + rest) =~= out@ + rest);
                },
                None => {},
            }
        }
        pos = next;
        i = i + 1;
    }
    proof {
        assert(out@ + Seq::<Option<V>>::empty() =~= out@);
    }
    Some((out, pos))
}

/// Reading `n` starts gives `n` of them.
proof fn lemma_take_starts_len(b: Seq<u8>, n: nat, width: nat)
    ensures
        take_starts(b, n, width) matches Some((starts, _)) ==> starts.len() == n,
    decreases n,
{
    if n > 0 && b.len() >= width {
        lemma_take_starts_len(b.skip(width as int), (n - 1) as nat, width);
    }
}

/// Reading `n` value slots gives `n` of them.
proof fn lemma_take_values_len<V: Payload>(b: Seq<u8>, n: nat)
    ensures
        take_values::<V>(b, n) matches Some((values, _)) ==> values.len() == n,
    decreases n,
{
    if n > 0 {
        match take_slot::<V>(b) {
            Some((slot, after)) => {
                lemma_take_values_len::<V>(after, (n - 1) as nat);
            },
            None => {},
        }
    }
}

/// Reads an index.
fn read_index<A: Address, V: IpData + Payload>(b: &[u8], at: usize) -> (r: Option<
    (RangeIndex<A, V>, usize),
>)
    requires
        at <= b@.len(),
    ensures
        match take_index::<V>(b@.skip(at as int), A::width()) {
            Some((entries, rest)) => r matches Some((index, end)) && index.wf() && index@
                == entries && end <= b@.len() && rest == b@.skip(end as int),
            None => r is None,
        },
{
    let (n, at_starts) = match read_length(b, at) {
        Some(x) => x,
        None => {
            return None;
        },
    };
    let (starts, at_count) = match read_starts::<A>(b, at_starts, n) {
        Some(x) => x,
        None => {
            return None;
        },
    };
    let (m, at_values) = match read_length(b, at_count) {
        Some(x) => x,
        None => {
            return None;
        },
    };
    let (values, end) = match read_values::<V>(b, at_values, m) {
        Some(x) => x,
        None => {
            return None;
        },
    };
    proof {
        lemma_take_starts_len(b@.skip(at_starts as int), n as nat, A::width());
        lemma_take_values_len::<V>(b@.skip(at_values as int), m as nat);
    }
    assert(n == m ==> crate::index::paired(starts@, values@) =~= zipped(
        positions(starts@),
        values@,
    ));
    if n != m {
        return None;
    }
    match RangeIndex::from_parts(starts, values) {
        Some(index) => Some((index, end)),
        None => None,
    }
}

impl<V: IpData + Payload> DbIpDatabase<V> {
    /// The database in bytes.
    pub fn serialize(&self) -> (r: Vec<u8>)
        requires
            self.wf(),
        ensures
            r@ == encoded(self.families(), self.v4(), self.v6()),
            decoded::<V>(self.families(), r@) == Some((self.v4(), self.v6())),
    {
        let mut out: Vec<u8> = Vec::new();
        let families = self.held();
        if families.v4 {
            put_index(self.index_v4(), &mut out);
        }
        if families.v6 {
            put_index(self.index_v6(), &mut out);
        }
        proof {
            assert(out@ =~= encoded(self.families(), self.v4(), self.v6()));
            lemma_read_back(self.families(), self.v4(), self.v6());
        }
        out
    }

    /// The database of both families that the bytes hold, if they hold one
    /// and nothing more.
    pub fn deserialize(bytes: &[u8]) -> (r: Option<Self>)
        ensures
            match decoded::<V>(Families { v4: true, v6: true }, bytes@) {
                Some((v4, v6)) => r matches Some(db) && db.wf() && db.families() == (Families {
                    v4: true,
                    v6: true,
                }) && db.v4() == v4 && db.v6() == v6,
                None => r is None,
            },
    {
        DbIpDatabase::deserialize_for(Families::all(), bytes)
    }

    /// The database of the given families that the bytes hold, if they hold
    /// one and nothing more.
    pub fn deserialize_for(families: Families, bytes: &[u8]) -> (r: Option<Self>)
        ensures
            match decoded::<V>(families, bytes@) {
                Some((v4, v6)) => r matches Some(db) && db.wf() && db.families() == families
                    && db.v4() == v4 && db.v6() == v6,
                None => r is None,
            },
    {
        assert(bytes@.skip(0) =~= bytes@);
        let mut at: usize = 0;
        let mut v4: Option<RangeIndex<u32, V>> = None;
        if families.v4 {
            match read_index::<u32, V>(bytes, at) {
                Some((index, end)) => {
                    v4 = Some(index);
                    at = end;
                },
                None => {
                    return None;
                },
            }
        }
        let mut v6: Option<RangeIndex<u128, V>> = None;
        if families.v6 {
            match read_index::<u128, V>(bytes, at) {
                Some((index, end)) => {
                    v6 = Some(index);
                    at = end;
                },
                None => {
                    return None;
                },
            }
        }
        if at != bytes.len() {
            return None;
        }
        Some(DbIpDatabase::from_indexes(v4, v6))
    }
}

} // verus!
