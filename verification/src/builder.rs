use crate::addr::{follows, Address};
use crate::data::IpData;
use crate::error::Error;
use crate::index::{ascending, compressed, RangeIndex};
use vstd::prelude::*;

verus! {

/// A range of positions, both ends included, with the value it carries.
pub struct Span<V> {
    pub start: nat,
    pub end: nat,
    pub value: V,
}

/// What a builder has reached: the entries stored so far, the first position
/// that no range has claimed yet, and whether a range has reached the last
/// position of the family. Once `done`, `next` has no meaning.
pub struct Progress<V> {
    pub entries: Seq<(nat, Option<V>)>,
    pub next: nat,
    pub done: bool,
}

/// The entries once a range that starts at `start` and carries `value` has
/// been recorded behind `entries`, where `next` is the first position that no
/// earlier range claimed. A range with the value of the last entry is
/// absorbed by it. Otherwise the range gets an entry of its own, behind an
/// entry without value for the unclaimed positions before it, if there are any.
pub open spec fn recorded<V>(
    entries: Seq<(nat, Option<V>)>,
    next: nat,
    start: nat,
    value: V,
) -> Seq<(nat, Option<V>)> {
    if entries.len() > 0 && entries.last().1 == Some(value) {
        entries
    } else if start > next {
        entries.push((next, None)).push((start, Some(value)))
    } else {
        entries.push((start, Some(value)))
    }
}

/// The state before any range.
pub open spec fn fresh<V>() -> Progress<V> {
    Progress { entries: Seq::empty(), next: 0, done: false }
}

/// Whether a builder in state `p` takes the range `s`: it must not be done,
/// and the range must neither reach back into claimed positions nor be reversed.
pub open spec fn accepts<V>(p: Progress<V>, s: Span<V>) -> bool {
    !p.done && p.next <= s.start <= s.end
}

/// The state after a builder in state `p` has taken the range `s`, in a
/// family whose last position is `top`.
pub open spec fn advance<V>(p: Progress<V>, s: Span<V>, top: nat) -> Progress<V> {
    Progress {
        entries: recorded(p.entries, p.next, s.start, s.value),
        next: if s.end == top {
            p.next
        } else {
            s.end + 1
        },
        done: s.end == top,
    }
}

/// The invariant of a builder's state: the entries form a valid index that
/// ends in a value, and while ranges are accepted every entry starts before `next`.
pub open spec fn sound<V>(p: Progress<V>) -> bool {
    &&& ascending(p.entries)
    &&& compressed(p.entries)
    &&& p.entries.len() > 0 ==> p.entries.last().1 is Some
    &&& !p.done ==> forall|i: int| 0 <= i < p.entries.len() ==> (#[trigger] p.entries[i]).0 < p.next
}

/// The range from `start` to `end` with `value`, by positions.
pub open spec fn span_of<A: Address, V>(start: A, end: A, value: V) -> Span<V> {
    Span { start: start.pos(), end: end.pos(), value }
}

/// Builds a [`RangeIndex`] from ranges that arrive in ascending order.
pub struct RangeIndexBuilder<A, V> {
    index: RangeIndex<A, V>,
    next: A,
    done: bool,
}

impl<A: Address, V: IpData> View for RangeIndexBuilder<A, V> {
    type V = Progress<V>;

    /// What the builder has reached.
    closed spec fn view(&self) -> Progress<V> {
        Progress { entries: self.index@, next: self.next.pos(), done: self.done }
    }
}

impl<A: Address, V: IpData> RangeIndexBuilder<A, V> {
    /// Whether each stored start has its value.
    pub closed spec fn aligned(&self) -> bool {
        self.index.aligned()
    }

    /// The invariant of a builder.
    pub open spec fn wf(&self) -> bool {
        &&& self.aligned()
        &&& sound(self@)
    }

    /// A builder that has seen no range.
    pub fn new() -> (r: Self)
        ensures
            r.wf(),
            r@ == fresh::<V>(),
    {
        RangeIndexBuilder { index: RangeIndex::new(), next: A::zero(), done: false }
    }

    /// Records the range from `start` to `end`, both included, with `value`.
    /// `end_plus_one` is the address after `end`, absent where `end` is the
    /// last address of the family.
    ///
    /// The range is refused, and the builder left as it was, if an earlier
    /// range reached the last address, if `start` lies before the first
    /// unclaimed address, or if `start` lies behind `end`.
    pub fn push(&mut self, start: A, end: A, end_plus_one: Option<A>, value: V) -> (r: Result<
        (),
        Error,
    >)
        requires
            old(self).wf(),
            follows(end, end_plus_one),
        ensures
            final(self).wf(),
            r is Ok <==> accepts(old(self)@, span_of(start, end, value)),
            r is Ok ==> final(self)@ == advance(
                old(self)@,
                span_of(start, end, value),
                A::ceiling(),
            ),
            r is Err ==> r == Err::<(), Error>(Error::AddrOutOfOrder) && *final(self) == *old(
                self,
            ),
            start.pos() < old(self)@.next ==> r == Err::<(), Error>(Error::AddrOutOfOrder),
    {
        if self.done || start.before(&self.next) || end.before(&start) {
            return Err(Error::AddrOutOfOrder);
        }
        let absorbed = match self.index.last_value() {
            Some(Some(w)) => w.same(&value),
            _ => false,
        };
        if !absorbed {
            if self.next.before(&start) {
                self.index.append(self.next, None);
            }
            self.index.append(start, Some(value));
        }
        match end_plus_one {
            Some(n) => {
                proof {
                    n.lemma_pos_bounded();
                }
                self.next = n;
            },
            None => {
                self.done = true;
            },
        }
        Ok(())
    }

    /// Hands out the index built from the ranges recorded so far.
    pub fn finish(self) -> (r: RangeIndex<A, V>)
        requires
            self.wf(),
        ensures
            r.wf(),
            r@ == self@.entries,
    {
        self.index
    }
}

} // verus!
