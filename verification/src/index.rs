use crate::addr::Address;
use crate::data::IpData;
use vstd::prelude::*;

verus! {

/// Whether the starts of `entries` are strictly increasing.
pub open spec fn ascending<V>(entries: Seq<(nat, Option<V>)>) -> bool {
    forall|i: int, j: int| 0 <= i < j < entries.len() ==> entries[i].0 < entries[j].0
}

/// Whether no two neighbouring entries carry the same value.
pub open spec fn compressed<V>(entries: Seq<(nat, Option<V>)>) -> bool {
    forall|i: int| 0 <= i < entries.len() - 1 ==> entries[i].1 != (#[trigger] entries[i + 1]).1
}

/// One more than the index of the last entry whose start is at most `x`,
/// or zero where `x` lies before every start.
pub open spec fn rank<V>(entries: Seq<(nat, Option<V>)>, x: nat) -> nat
    decreases entries.len(),
{
    if entries.len() == 0 {
        0
    } else if entries.last().0 <= x {
        entries.len()
    } else {
        rank(entries.drop_last(), x)
    }
}

/// The value that `entries` assign to the address at position `x`: that of
/// the last entry starting at or before `x`, if there is one.
pub open spec fn value_at<V>(entries: Seq<(nat, Option<V>)>, x: nat) -> Option<V> {
    let r = rank(entries, x);
    if r == 0 {
        None
    } else {
        entries[r - 1].1
    }
}

/// In ascending entries, a split point with every start before it at most
/// `x` and every start from it on above `x` is the rank of `x`.
pub proof fn lemma_rank_is_split<V>(entries: Seq<(nat, Option<V>)>, x: nat, k: int)
    requires
        ascending(entries),
        0 <= k <= entries.len(),
        forall|i: int| 0 <= i < k ==> entries[i].0 <= x,
        forall|i: int| k <= i < entries.len() ==> entries[i].0 > x,
    ensures
        rank(entries, x) == k,
    decreases entries.len(),
{
    if entries.len() > 0 && k < entries.len() {
        lemma_rank_is_split(entries.drop_last(), x, k);
    }
}

/// The entries made of the given starts and their values.
pub open spec fn paired<A: Address, V>(starts: Seq<A>, values: Seq<Option<V>>) -> Seq<
    (nat, Option<V>),
> {
    Seq::new(starts.len(), |i: int| (starts[i].pos(), values[i]))
}

/// Entries whose starts increase from each to the next are ascending.
pub proof fn lemma_ascending_by_steps<V>(entries: Seq<(nat, Option<V>)>)
    requires
        forall|i: int| 0 < i < entries.len() ==> entries[i - 1].0 < (#[trigger] entries[i]).0,
    ensures
        ascending(entries),
    decreases entries.len(),
{
    if entries.len() > 1 {
        let front = entries.drop_last();
        assert forall|i: int| 0 < i < front.len() implies front[i - 1].0 < (#[trigger] front[i]).0 by {
            assert(entries[i - 1].0 < entries[i].0);
        }
        lemma_ascending_by_steps(front);
        assert forall|i: int, j: int| 0 <= i < j < entries.len() implies entries[i].0
            < entries[j].0 by {
            if j == entries.len() - 1 {
                assert(entries[j - 1].0 < entries[j].0);
                if i < j - 1 {
                    assert(front[i].0 < front[j - 1].0);
                }
            } else {
                assert(front[i].0 < front[j].0);
            }
        }
    }
}

/// Disjoint address ranges of one family with their values, held as the
/// sorted table of the addresses at which the value changes.
pub struct RangeIndex<A, V> {
    starts: Vec<A>,
    values: Vec<Option<V>>,
}

impl<A: Address, V> View for RangeIndex<A, V> {
    type V = Seq<(nat, Option<V>)>;

    /// The entries in order, each start as a position.
    closed spec fn view(&self) -> Seq<(nat, Option<V>)> {
        Seq::new(self.starts@.len(), |i: int| (self.starts@[i].pos(), self.values@[i]))
    }
}

impl<A: Address, V: Copy> RangeIndex<A, V> {
    /// Whether each start has its value.
    pub closed spec fn aligned(&self) -> bool {
        self.starts@.len() == self.values@.len()
    }

    /// The invariant of an index: starts strictly increase, and neighbouring
    /// entries differ in value.
    pub open spec fn wf(&self) -> bool {
        &&& self.aligned()
        &&& ascending(self@)
        &&& compressed(self@)
    }

    /// An index without entries.
    pub fn new() -> (r: Self)
        ensures
            r.wf(),
            r@ == Seq::<(nat, Option<V>)>::empty(),
    {
        let r = RangeIndex { starts: Vec::new(), values: Vec::new() };
        assert(r@ =~= Seq::<(nat, Option<V>)>::empty());
        r
    }

    /// The value of the last entry, if there is an entry.
    pub(crate) fn last_value(&self) -> (r: Option<Option<V>>)
        requires
            self.aligned(),
        ensures
            r == if self@.len() == 0 {
                None
            } else {
                Some(self@.last().1)
            },
    {
        let n: usize = self.values.len();
        if n == 0 {
            None
        } else {
            Some(self.values[n - 1])
        }
    }

    /// Adds an entry behind the others.
    pub(crate) fn append(&mut self, start: A, value: Option<V>)
        requires
            old(self).aligned(),
        ensures
            final(self).aligned(),
            final(self)@ == old(self)@.push((start.pos(), value)),
    {
        self.starts.push(start);
        self.values.push(value);
        assert(self@ =~= old(self)@.push((start.pos(), value)));
    }

    /// The number of stored range starts.
    pub fn len(&self) -> (n: usize)
        ensures
            n == self@.len(),
    {
        self.starts.len()
    }

    /// The value recorded for `addr`: that of the last entry that starts at or
    /// before it. `None` where `addr` precedes every entry or lies in a gap.
    pub fn lookup(&self, addr: A) -> (r: Option<V>)
        requires
            self.wf(),
        ensures
            r == value_at(self@, addr.pos()),
    {
        let mut lo: usize = 0;
        let mut hi: usize = self.starts.len();
        while lo < hi
            invariant
                self.wf(),
                0 <= lo <= hi <= self.starts@.len(),
                forall|i: int| 0 <= i < lo ==> self@[i].0 <= addr.pos(),
                forall|i: int| hi <= i < self@.len() ==> self@[i].0 > addr.pos(),
            decreases hi - lo,
        {
            let mid: usize = lo + (hi - lo) / 2;
            assert(self@[mid as int].0 == self.starts@[mid as int].pos());
            if addr.before(&self.starts[mid]) {
                hi = mid;
            } else {
                lo = mid + 1;
            }
        }
        proof {
            lemma_rank_is_split(self@, addr.pos(), lo as int);
        }
        if lo == 0 {
            None
        } else {
            self.values[lo - 1]
        }
    }
}

impl<A: Address, V: IpData> RangeIndex<A, V> {
    /// The starts of the entries, in order.
    pub fn starts(&self) -> (r: &Vec<A>)
        ensures
            r@.len() == self@.len(),
            forall|i: int| 0 <= i < r@.len() ==> (#[trigger] r@[i]).pos() == self@[i].0,
    {
        &self.starts
    }

    /// The values of the entries, in the order of their starts.
    pub fn values(&self) -> (r: &Vec<Option<V>>)
        requires
            self.wf(),
        ensures
            r@.len() == self@.len(),
            forall|i: int| 0 <= i < r@.len() ==> #[trigger] r@[i] == self@[i].1,
    {
        &self.values
    }

    /// The index with the given starts and values, if they make one: as
    /// many values as starts, the starts strictly increasing, and no two
    /// neighbouring values equal.
    pub fn from_parts(starts: Vec<A>, values: Vec<Option<V>>) -> (r: Option<Self>)
        ensures
            match r {
                Some(index) => index.wf() && index@ == paired(starts@, values@),
                None => !(starts@.len() == values@.len() && ascending(paired(starts@, values@))
                    && compressed(paired(starts@, values@))),
            },
    {
        let n: usize = starts.len();
        if values.len() != n {
            return None;
        }
        let ghost entries = paired(starts@, values@);
        let mut i: usize = 1;
        while i < n
            invariant
                n == starts@.len() == values@.len(),
                entries == paired(starts@, values@),
                1 <= i,
                forall|k: int| 0 < k < i && k < n ==> entries[k - 1].0 < (#[trigger] entries[k]).0,
                forall|k: int| 0 < k < i && k < n ==> entries[k - 1].1 != (#[trigger] entries[k]).1,
            decreases n - i,
        {
            if !starts[i - 1].before(&starts[i]) {
                assert(!(entries[i - 1].0 < entries[i as int].0));
                return None;
            }
            let equal = match (values[i - 1], values[i]) {
                (Some(a), Some(b)) => a.same(&b),
                (None, None) => true,
                _ => false,
            };
            if equal {
                assert(entries[i - 1].1 == entries[i - 1 + 1].1);
                return None;
            }
            i = i + 1;
        }
        proof {
            lemma_ascending_by_steps(entries);
            assert forall|k: int| 0 <= k < entries.len() - 1 implies entries[k].1 != (
            #[trigger] entries[k + 1]).1 by {
                assert(entries[k + 1 - 1].1 != entries[k + 1].1);
            }
        }
        let r = RangeIndex { starts, values };
        assert(r@ =~= entries);
        Some(r)
    }
}

} // verus!
