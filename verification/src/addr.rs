use vstd::prelude::*;

verus! {

/// The number of values that `n` bytes can hold.
pub open spec fn pow256(n: nat) -> nat
    decreases n,
{
    if n == 0 {
        1
    } else {
        256 * pow256((n - 1) as nat)
    }
}

/// An address of one family, seen as a position in a finite, totally ordered
/// space that starts at zero.
pub trait Address: Copy + Sized {
    /// The position of the address, counted from the first address of the family.
    spec fn pos(self) -> nat;

    /// The position of the last address of the family.
    spec fn ceiling() -> nat;

    /// The number of bytes that hold an address of the family.
    spec fn width() -> nat;

    /// No address lies behind the last one.
    proof fn lemma_pos_bounded(self)
        ensures
            self.pos() <= Self::ceiling(),
    ;

    /// The family has as many addresses as its bytes can tell apart, and
    /// takes at most sixteen bytes.
    proof fn lemma_width()
        ensures
            1 <= Self::width() <= 16,
            Self::ceiling() + 1 == pow256(Self::width()),
    ;

    /// The first address of the family.
    fn zero() -> (r: Self)
        ensures
            r.pos() == 0,
    ;

    /// Whether `self` comes strictly before `other`.
    fn before(&self, other: &Self) -> (r: bool)
        ensures
            r == (self.pos() < other.pos()),
    ;

    /// The number of bytes that hold an address of the family.
    fn width_bytes() -> (r: usize)
        ensures
            r == Self::width(),
    ;

    /// The position of the address.
    fn widen(&self) -> (r: u128)
        ensures
            r == self.pos(),
    ;

    /// The address at a position of the family.
    fn narrow(x: u128) -> (r: Self)
        requires
            x <= Self::ceiling(),
        ensures
            r.pos() == x,
    ;

    /// The address that follows `self`, or `None` at the end of the space.
    fn successor(&self) -> (r: Option<Self>)
        ensures
            match r {
                Some(n) => n.pos() == self.pos() + 1,
                None => self.pos() == Self::ceiling(),
            },
    ;
}

/// Whether `next` is what comes after `a`: the address one position further,
/// or nothing where `a` is the last address of its family.
pub open spec fn follows<A: Address>(a: A, next: Option<A>) -> bool {
    match next {
        Some(n) => n.pos() == a.pos() + 1,
        None => a.pos() == A::ceiling(),
    }
}

impl Address for u32 {
    open spec fn pos(self) -> nat {
        self as nat
    }

    open spec fn ceiling() -> nat {
        0xffff_ffff
    }

    open spec fn width() -> nat {
        4
    }

    proof fn lemma_pos_bounded(self) {
    }

    proof fn lemma_width() {
        reveal_with_fuel(pow256, 5);
    }

    fn width_bytes() -> (r: usize) {
        4
    }

    fn widen(&self) -> (r: u128) {
        *self as u128
    }

    fn narrow(x: u128) -> (r: Self) {
        x as u32
    }

    fn zero() -> (r: Self) {
        0
    }

    fn before(&self, other: &Self) -> (r: bool) {
        *self < *other
    }

    fn successor(&self) -> (r: Option<Self>) {
        if *self == u32::MAX {
            None
        } else {
            Some(*self + 1)
        }
    }
}

impl Address for u128 {
    open spec fn pos(self) -> nat {
        self as nat
    }

    open spec fn ceiling() -> nat {
        0xffff_ffff_ffff_ffff_ffff_ffff_ffff_ffff
    }

    open spec fn width() -> nat {
        16
    }

    proof fn lemma_pos_bounded(self) {
    }

    proof fn lemma_width() {
        reveal_with_fuel(pow256, 17);
    }

    fn width_bytes() -> (r: usize) {
        16
    }

    fn widen(&self) -> (r: u128) {
        *self
    }

    fn narrow(x: u128) -> (r: Self) {
        x
    }

    fn zero() -> (r: Self) {
        0
    }

    fn before(&self, other: &Self) -> (r: bool) {
        *self < *other
    }

    fn successor(&self) -> (r: Option<Self>) {
        if *self == u128::MAX {
            None
        } else {
            Some(*self + 1)
        }
    }
}

/// An address of either family.
#[derive(Clone, Copy, Debug, PartialEq, Eq, Structural)]
pub enum IpAddress {
    /// An IPv4 address, as a 32-bit number.
    V4(u32),
    /// An IPv6 address, as a 128-bit number.
    V6(u128),
}

/// One of the two families of addresses.
#[derive(Clone, Copy, Debug, PartialEq, Eq, Structural)]
pub enum AddressFamily {
    /// IPv4, with addresses of 32 bits.
    V4,
    /// IPv6, with addresses of 128 bits.
    V6,
}

impl IpAddress {
    /// The family of the address.
    pub fn family(&self) -> (r: AddressFamily)
        ensures
            r == match *self {
                IpAddress::V4(_) => AddressFamily::V4,
                IpAddress::V6(_) => AddressFamily::V6,
            },
    {
        match self {
            IpAddress::V4(_) => AddressFamily::V4,
            IpAddress::V6(_) => AddressFamily::V6,
        }
    }
}

/// The families that a database holds: none, one, or both.
#[derive(Clone, Copy, Debug, PartialEq, Eq, Structural)]
pub struct Families {
    pub v4: bool,
    pub v6: bool,
}

impl Families {
    /// Both families.
    pub fn all() -> (r: Self)
        ensures
            r == (Families { v4: true, v6: true }),
    {
        Families { v4: true, v6: true }
    }

    /// One family alone.
    pub fn only(family: AddressFamily) -> (r: Self)
        ensures
            r == (Families { v4: family == AddressFamily::V4, v6: family == AddressFamily::V6 }),
    {
        match family {
            AddressFamily::V4 => Families { v4: true, v6: false },
            AddressFamily::V6 => Families { v4: false, v6: true },
        }
    }

    /// Whether `family` is among them.
    pub fn holds(&self, family: AddressFamily) -> (r: bool)
        ensures
            r == match family {
                AddressFamily::V4 => self.v4,
                AddressFamily::V6 => self.v6,
            },
    {
        match family {
            AddressFamily::V4 => self.v4,
            AddressFamily::V6 => self.v6,
        }
    }
}

} // verus!
