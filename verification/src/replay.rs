//! What an index holds once a builder has taken a sequence of ranges: how
//! many entries, and which value each position resolves to.

use crate::builder::{accepts, advance, fresh, recorded, sound, Progress, Span};
use crate::index::{rank, value_at};
use vstd::prelude::*;

verus! {

/// The state of a builder that was handed `spans` one after the other, in a
/// family whose last position is `top`; `None` where it refused one of them.
pub open spec fn replay<V>(spans: Seq<Span<V>>, top: nat) -> Option<Progress<V>>
    decreases spans.len(),
{
    if spans.len() == 0 {
        Some(fresh())
    } else {
        match replay(spans.drop_last(), top) {
            Some(p) => if accepts(p, spans.last()) {
                Some(advance(p, spans.last(), top))
            } else {
                None
            },
            None => None,
        }
    }
}

/// Whether every range ends within a family whose last position is `top`.
pub open spec fn within<V>(spans: Seq<Span<V>>, top: nat) -> bool {
    forall|i: int| 0 <= i < spans.len() ==> (#[trigger] spans[i]).end <= top
}

/// The number of entries that `spans` need: one for each range whose value
/// differs from that of the range before it, the first range included, and
/// one more where unclaimed positions lie before such a range.
pub open spec fn boundaries<V>(spans: Seq<Span<V>>) -> nat
    decreases spans.len(),
{
    if spans.len() == 0 {
        0
    } else {
        let earlier = spans.drop_last();
        let s = spans.last();
        if earlier.len() == 0 {
            if s.start > 0 {
                2
            } else {
                1
            }
        } else if earlier.last().value == s.value {
            boundaries(earlier)
        } else if s.start > earlier.last().end + 1 {
            boundaries(earlier) + 2
        } else {
            boundaries(earlier) + 1
        }
    }
}

/// An entry that starts behind `x` does not change what `x` resolves to.
proof fn lemma_push_behind<V>(entries: Seq<(nat, Option<V>)>, e: (nat, Option<V>), x: nat)
    requires
        x < e.0,
    ensures
        rank(entries.push(e), x) == rank(entries, x),
        value_at(entries.push(e), x) == value_at(entries, x),
{
    assert(entries.push(e).drop_last() =~= entries);
    assert(rank(entries, x) <= entries.len()) by {
        lemma_rank_bounded(entries, x);
    }
}

/// A rank counts entries.
proof fn lemma_rank_bounded<V>(entries: Seq<(nat, Option<V>)>, x: nat)
    ensures
        rank(entries, x) <= entries.len(),
    decreases entries.len(),
{
    if entries.len() > 0 && entries.last().0 > x {
        lemma_rank_bounded(entries.drop_last(), x);
    }
}

/// Recording a range leaves the positions before the first unclaimed one as
/// they were.
proof fn lemma_recorded_keeps<V>(p: Progress<V>, s: Span<V>, x: nat)
    requires
        accepts(p, s),
        x < p.next,
    ensures
        value_at(recorded(p.entries, p.next, s.start, s.value), x) == value_at(p.entries, x),
{
    if p.entries.len() > 0 && p.entries.last().1 == Some(s.value) {
    } else if s.start > p.next {
        lemma_push_behind(p.entries, (p.next, None), x);
        lemma_push_behind(p.entries.push((p.next, None)), (s.start, Some(s.value)), x);
    } else {
        lemma_push_behind(p.entries, (s.start, Some(s.value)), x);
    }
}

/// Recording a range makes every position from its start on resolve to its value.
proof fn lemma_recorded_claims<V>(p: Progress<V>, s: Span<V>, x: nat)
    requires
        sound(p),
        accepts(p, s),
        s.start <= x,
    ensures
        value_at(recorded(p.entries, p.next, s.start, s.value), x) == Some(s.value),
{
    let after = recorded(p.entries, p.next, s.start, s.value);
    assert(after.len() > 0);
    assert(after.last().0 <= x);
    assert(after.last().1 == Some(s.value));
}

/// A state stays sound when it takes a range.
pub proof fn lemma_advance_sound<V>(p: Progress<V>, s: Span<V>, top: nat)
    requires
        sound(p),
        accepts(p, s),
        s.end <= top,
    ensures
        sound(advance(p, s, top)),
{
}

/// Every state that a builder reaches is sound.
pub proof fn lemma_replay_sound<V>(spans: Seq<Span<V>>, top: nat)
    requires
        within(spans, top),
        replay(spans, top) is Some,
    ensures
        sound(replay(spans, top)->0),
    decreases spans.len(),
{
    if spans.len() > 0 {
        lemma_replay_sound(spans.drop_last(), top);
        lemma_advance_sound(replay(spans.drop_last(), top)->0, spans.last(), top);
    }
}

/// A builder that took all of `spans` took each beginning of them, and was
/// ready for the range that came next.
proof fn lemma_replay_prefix<V>(spans: Seq<Span<V>>, top: nat, m: int)
    requires
        replay(spans, top) is Some,
        0 <= m <= spans.len(),
    ensures
        replay(spans.take(m), top) is Some,
        m < spans.len() ==> accepts(replay(spans.take(m), top)->0, spans[m]),
        m > 0 ==> replay(spans.take(m), top) == Some(
            advance(replay(spans.take(m - 1), top)->0, spans[m - 1], top),
        ),
    decreases spans.len(),
{
    if m == spans.len() {
        assert(spans.take(m) =~= spans);
        if m > 0 {
            assert(spans.take(m - 1) =~= spans.drop_last());
        }
    } else {
        lemma_replay_prefix(spans.drop_last(), top, m);
        assert(spans.drop_last().take(m) =~= spans.take(m));
        if m > 0 {
            assert(spans.drop_last().take(m - 1) =~= spans.take(m - 1));
        }
        if m == spans.len() - 1 {
            assert(spans.take(m) =~= spans.drop_last());
        }
    }
}

/// After at least one range, the last entry carries the value of the last range.
proof fn lemma_last_value<V>(spans: Seq<Span<V>>, top: nat)
    requires
        replay(spans, top) is Some,
        spans.len() > 0,
    ensures
        replay(spans, top)->0.entries.len() > 0,
        replay(spans, top)->0.entries.last().1 == Some(spans.last().value),
{
}

/// Once the first `m` ranges are recorded, a position before the first
/// unclaimed one resolves to the same value ever after.
proof fn lemma_settled<V>(spans: Seq<Span<V>>, top: nat, m: int, x: nat)
    requires
        replay(spans, top) is Some,
        0 <= m <= spans.len(),
        m < spans.len() ==> x < replay(spans.take(m), top)->0.next,
    ensures
        value_at(replay(spans, top)->0.entries, x) == value_at(
            replay(spans.take(m), top)->0.entries,
            x,
        ),
        m < spans.len() ==> replay(spans, top)->0.done || x < replay(spans, top)->0.next,
    decreases spans.len(),
{
    if m == spans.len() {
        assert(spans.take(m) =~= spans);
    } else {
        let earlier = spans.drop_last();
        let p = replay(earlier, top)->0;
        assert(earlier.take(m) =~= spans.take(m));
        lemma_settled(earlier, top, m, x);
        if m == earlier.len() {
            assert(earlier.take(m) =~= earlier);
        }
        assert(x < p.next);
        lemma_recorded_keeps(p, spans.last(), x);
    }
}

/// The entries count the changes of value: an index built from `spans` has
/// as many entries as `spans` have ranges that differ in value from the range
/// before them, plus one for each of these that unclaimed positions precede.
pub proof fn lemma_entry_count<V>(spans: Seq<Span<V>>, top: nat)
    requires
        replay(spans, top) is Some,
    ensures
        replay(spans, top)->0.entries.len() == boundaries(spans),
    decreases spans.len(),
{
    if spans.len() > 0 {
        let earlier = spans.drop_last();
        lemma_entry_count(earlier, top);
        if earlier.len() > 0 {
            lemma_last_value(earlier, top);
            assert(replay(earlier, top)->0.next == earlier.last().end + 1);
        }
    }
}

/// Whether the ranges follow each other without unclaimed positions between
/// them, the first starting at position zero.
pub open spec fn contiguous<V>(spans: Seq<Span<V>>) -> bool {
    &&& spans.len() > 0 ==> spans[0].start == 0
    &&& forall|i: int| 0 < i < spans.len() ==> (#[trigger] spans[i]).start == spans[i - 1].end + 1
}

/// The number of ranges whose value differs from that of the range before
/// them, the first range included.
pub open spec fn changes<V>(spans: Seq<Span<V>>) -> nat
    decreases spans.len(),
{
    if spans.len() == 0 {
        0
    } else if spans.len() == 1 || spans[spans.len() - 2].value != spans.last().value {
        changes(spans.drop_last()) + 1
    } else {
        changes(spans.drop_last())
    }
}

/// Neighbouring ranges of equal value are merged: an index built from
/// ranges without unclaimed positions between them has exactly one entry for
/// each change of value.
pub proof fn lemma_contiguous_entry_count<V>(spans: Seq<Span<V>>, top: nat)
    requires
        replay(spans, top) is Some,
        contiguous(spans),
    ensures
        replay(spans, top)->0.entries.len() == changes(spans),
{
    lemma_entry_count(spans, top);
    lemma_boundaries_of_contiguous(spans);
}

/// Where no positions are left unclaimed, only changes of value need entries.
proof fn lemma_boundaries_of_contiguous<V>(spans: Seq<Span<V>>)
    requires
        contiguous(spans),
    ensures
        boundaries(spans) == changes(spans),
    decreases spans.len(),
{
    if spans.len() > 0 {
        let earlier = spans.drop_last();
        assert(contiguous(earlier)) by {
            assert forall|i: int| 0 < i < earlier.len() implies (#[trigger] earlier[i]).start
                == earlier[i - 1].end + 1 by {
                assert(spans[i].start == spans[i - 1].end + 1);
            }
        }
        lemma_boundaries_of_contiguous(earlier);
        if earlier.len() > 0 {
            assert(spans[spans.len() - 1].start == spans[spans.len() - 2].end + 1);
        }
    }
}

/// Every position inside a recorded range resolves to the value of that range.
pub proof fn lemma_range_resolves<V>(spans: Seq<Span<V>>, top: nat, i: int, x: nat)
    requires
        within(spans, top),
        replay(spans, top) is Some,
        0 <= i < spans.len(),
        spans[i].start <= x <= spans[i].end,
    ensures
        value_at(replay(spans, top)->0.entries, x) == Some(spans[i].value),
{
    lemma_replay_prefix(spans, top, i + 1);
    lemma_replay_prefix(spans, top, i);
    let p = replay(spans.take(i), top)->0;
    assert(within(spans.take(i), top));
    lemma_replay_sound(spans.take(i), top);
    lemma_recorded_claims(p, spans[i], x);
    if i + 1 < spans.len() {
        assert(!replay(spans.take(i + 1), top)->0.done);
    }
    lemma_settled(spans, top, i + 1, x);
}

/// A position before the first recorded range resolves to nothing.
pub proof fn lemma_before_first_range<V>(spans: Seq<Span<V>>, top: nat, x: nat)
    requires
        replay(spans, top) is Some,
        spans.len() > 0 ==> x < spans[0].start,
    ensures
        value_at(replay(spans, top)->0.entries, x) == None::<V>,
{
    if spans.len() > 0 {
        lemma_replay_prefix(spans, top, 1);
        assert(spans.take(0) =~= Seq::<Span<V>>::empty());
        let s = spans[0];
        let first = recorded(Seq::<(nat, Option<V>)>::empty(), 0, s.start, s.value);
        lemma_push_behind(
            Seq::<(nat, Option<V>)>::empty().push((0, None)),
            (s.start, Some(s.value)),
            x,
        );
        assert(value_at(first, x) == None::<V>);
        if 1 < spans.len() {
            assert(!replay(spans.take(1), top)->0.done);
        }
        lemma_settled(spans, top, 1, x);
    }
}

/// A position between two recorded ranges that follow each other resolves
/// to nothing where the two differ in value. Where they carry the same
/// value, the second range was absorbed by the first, and the position
/// resolves to that value.
pub proof fn lemma_between_ranges<V>(spans: Seq<Span<V>>, top: nat, i: int, x: nat)
    requires
        within(spans, top),
        replay(spans, top) is Some,
        0 <= i < spans.len() - 1,
        spans[i].end < x < spans[i + 1].start,
    ensures
        value_at(replay(spans, top)->0.entries, x) == if spans[i].value == spans[i + 1].value {
            Some(spans[i].value)
        } else {
            None
        },
{
    lemma_replay_prefix(spans, top, i + 2);
    lemma_replay_prefix(spans, top, i + 1);
    let p = replay(spans.take(i + 1), top)->0;
    assert(within(spans.take(i + 1), top));
    lemma_replay_sound(spans.take(i + 1), top);
    lemma_last_value(spans.take(i + 1), top);
    let s = spans[i + 1];
    assert(p.next == spans[i].end + 1);
    if p.entries.last().1 == Some(s.value) {
        assert(p.entries.last().0 <= x);
    } else {
        lemma_push_behind(p.entries.push((p.next, None)), (s.start, Some(s.value)), x);
        assert(p.entries.push((p.next, None)).last().0 <= x);
    }
    if i + 2 < spans.len() {
        assert(!replay(spans.take(i + 2), top)->0.done);
    }
    lemma_settled(spans, top, i + 2, x);
}

/// The last entry reaches to the end of the family: a position behind the
/// last recorded range resolves to the value of that range.
pub proof fn lemma_behind_last_range<V>(spans: Seq<Span<V>>, top: nat, x: nat)
    requires
        within(spans, top),
        replay(spans, top) is Some,
        spans.len() > 0,
        spans.last().end < x,
    ensures
        value_at(replay(spans, top)->0.entries, x) == Some(spans.last().value),
{
    let p = replay(spans.drop_last(), top)->0;
    assert(within(spans.drop_last(), top));
    lemma_replay_sound(spans.drop_last(), top);
    lemma_recorded_claims(p, spans.last(), x);
}

} // verus!
