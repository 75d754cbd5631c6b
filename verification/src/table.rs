//! The table of the countries with their regions, in the order of the
//! country codes.

use crate::region::{country_info, entry_for, entry_of, RegionFromCountryCodeStr};
use vstd::prelude::*;
use vstd::string::StringSliceAdditionalSpecFns;

verus! {

/// Whether `a` comes before `b`, or is equal to it, where texts are ordered
/// byte by byte, and a text comes before those that it begins.
pub open spec fn lex_le(a: Seq<u8>, b: Seq<u8>) -> bool
    decreases a.len(),
{
    if a.len() == 0 {
        true
    } else if b.len() == 0 {
        false
    } else if a[0] != b[0] {
        a[0] < b[0]
    } else {
        lex_le(a.drop_first(), b.drop_first())
    }
}

/// Of two texts, one comes before the other or is equal to it.
pub proof fn lemma_lex_le_total(a: Seq<u8>, b: Seq<u8>)
    ensures
        lex_le(a, b) || lex_le(b, a),
    decreases a.len(),
{
    if a.len() > 0 && b.len() > 0 && a[0] == b[0] {
        lemma_lex_le_total(a.drop_first(), b.drop_first());
    }
}

/// The order of texts is transitive.
pub proof fn lemma_lex_le_transitive(a: Seq<u8>, b: Seq<u8>, c: Seq<u8>)
    requires
        lex_le(a, b),
        lex_le(b, c),
    ensures
        lex_le(a, c),
    decreases a.len(),
{
    if a.len() > 0 && b.len() > 0 && c.len() > 0 && a[0] == b[0] && b[0] == c[0] {
        lemma_lex_le_transitive(a.drop_first(), b.drop_first(), c.drop_first());
    }
}

/// Whether `a` comes before `b` or is equal to it.
pub fn text_le(a: &str, b: &str) -> (r: bool)
    ensures
        r == lex_le(a.spec_bytes(), b.spec_bytes()),
{
    let x = a.as_bytes();
    let y = b.as_bytes();
    let mut i: usize = 0;
    assert(x@.skip(0) =~= x@);
    assert(y@.skip(0) =~= y@);
    while i < x.len() && i < y.len()
        invariant
            x@ == a.spec_bytes(),
            y@ == b.spec_bytes(),
            0 <= i <= x@.len(),
            i <= y@.len(),
            lex_le(x@, y@) == lex_le(x@.skip(i as int), y@.skip(i as int)),
        decreases x@.len() - i,
    {
        assert(x@.skip(i as int).drop_first() =~= x@.skip(i + 1));
        assert(y@.skip(i as int).drop_first() =~= y@.skip(i + 1));
        assert(x@.skip(i as int)[0] == x@[i as int]);
        assert(y@.skip(i as int)[0] == y@[i as int]);
        if x[i] != y[i] {
            return x[i] < y[i];
        }
        i = i + 1;
    }
    i == x.len()
}

/// A country code with the name of its region, both as texts.
pub type Filed = (Seq<char>, Seq<char>);

/// Whether the entry `a` may stand before the entry `b`: its country code
/// comes before that of `b` or is equal to it.
pub open spec fn in_order(a: Filed, b: Filed) -> bool {
    lex_le(vstd::utf8::encode_utf8(a.0), vstd::utf8::encode_utf8(b.0))
}

/// Whether the entries stand in the order of their country codes.
pub open spec fn sorted(s: Seq<Filed>) -> bool {
    forall|i: int, j: int| 0 <= i < j < s.len() ==> in_order(s[i], s[j])
}

/// The entries `s` with `e` put behind the last entry that may stand before it.
pub open spec fn inserted(s: Seq<Filed>, e: Filed) -> Seq<Filed>
    decreases s.len(),
{
    if s.len() == 0 || in_order(s.last(), e) {
        s.push(e)
    } else {
        inserted(s.drop_last(), e).push(s.last())
    }
}

/// The entries `s` in the order of their country codes, those of equal code
/// in the order in which they stand in `s`.
pub open spec fn ordered(s: Seq<Filed>) -> Seq<Filed>
    decreases s.len(),
{
    if s.len() == 0 {
        s
    } else {
        inserted(ordered(s.drop_last()), s.last())
    }
}

/// The entries of the countries that the codes find, in the order of the codes.
pub open spec fn filed(codes: Seq<Seq<char>>) -> Seq<Filed>
    decreases codes.len(),
{
    if codes.len() == 0 {
        Seq::empty()
    } else {
        match entry_of(codes.last()) {
            Some(e) => filed(codes.drop_last()).push(e),
            None => filed(codes.drop_last()),
        }
    }
}

/// What the entries hold, as texts.
pub open spec fn views(v: Seq<RegionFromCountryCodeStr>) -> Seq<Filed> {
    Seq::new(v.len(), |i: int| (v[i].code(), v[i].region()))
}

/// The texts of the codes.
pub open spec fn texts(codes: Seq<String>) -> Seq<Seq<char>> {
    Seq::new(codes.len(), |i: int| codes[i]@)
}

/// Putting an entry in keeps all entries and adds the one.
pub proof fn lemma_inserted_permutes(s: Seq<Filed>, e: Filed)
    ensures
        inserted(s, e).to_multiset() == s.to_multiset().insert(e),
        inserted(s, e).len() == s.len() + 1,
    decreases s.len(),
{
    broadcast use vstd::seq_lib::to_multiset_build;

    if s.len() == 0 || in_order(s.last(), e) {
    } else {
        lemma_inserted_permutes(s.drop_last(), e);
        assert(s.drop_last().push(s.last()) =~= s);
        assert(inserted(s, e).to_multiset() =~= s.to_multiset().insert(e));
    }
}

/// Putting an entry into sorted entries leaves them sorted.
pub proof fn lemma_inserted_sorted(s: Seq<Filed>, e: Filed)
    requires
        sorted(s),
    ensures
        sorted(inserted(s, e)),
    decreases s.len(),
{
    let r = inserted(s, e);
    if s.len() == 0 {
    } else if in_order(s.last(), e) {
        assert forall|i: int, j: int| 0 <= i < j < r.len() implies in_order(r[i], r[j]) by {
            if j == s.len() && i < s.len() - 1 {
                assert(in_order(s[i], s[s.len() - 1]));
                lemma_lex_le_transitive(
                    vstd::utf8::encode_utf8(s[i].0),
                    vstd::utf8::encode_utf8(s.last().0),
                    vstd::utf8::encode_utf8(e.0),
                );
            }
        }
    } else {
        let front = inserted(s.drop_last(), e);
        lemma_inserted_sorted(s.drop_last(), e);
        lemma_inserted_permutes(s.drop_last(), e);
        lemma_lex_le_total(vstd::utf8::encode_utf8(s.last().0), vstd::utf8::encode_utf8(e.0));
        assert forall|i: int, j: int| 0 <= i < j < r.len() implies in_order(r[i], r[j]) by {
            if j == front.len() {
                broadcast use vstd::seq_lib::group_to_multiset_ensures;

                let x = front[i];
                assert(front.contains(x));
                assert(front.to_multiset().count(x) > 0);
                if x != e {
                    assert(s.drop_last().to_multiset().count(x) > 0);
                    assert(s.drop_last().contains(x));
                    let k = choose|k: int| 0 <= k < s.drop_last().len() && s.drop_last()[k] == x;
                    assert(in_order(s[k], s[s.len() - 1]));
                }
            }
        }
    }
}

/// Ordering entries sorts them.
pub proof fn lemma_ordered_sorted(s: Seq<Filed>)
    ensures
        sorted(ordered(s)),
    decreases s.len(),
{
    if s.len() > 0 {
        lemma_ordered_sorted(s.drop_last());
        lemma_inserted_sorted(ordered(s.drop_last()), s.last());
    }
}

/// Ordering entries keeps each of them, as often as it occurs.
pub proof fn lemma_ordered_permutes(s: Seq<Filed>)
    ensures
        ordered(s).to_multiset() == s.to_multiset(),
    decreases s.len(),
{
    broadcast use vstd::seq_lib::to_multiset_build;

    if s.len() > 0 {
        lemma_ordered_permutes(s.drop_last());
        lemma_inserted_permutes(ordered(s.drop_last()), s.last());
        assert(s.drop_last().push(s.last()) =~= s);
    }
}

/// Each entry that the codes give is the entry of one of the codes.
pub proof fn lemma_filed_found(codes: Seq<Seq<char>>, k: int)
    requires
        0 <= k < filed(codes).len(),
    ensures
        exists|j: int| 0 <= j < codes.len() && entry_of(#[trigger] codes[j]) == Some(filed(codes)[k]),
    decreases codes.len(),
{
    if codes.len() > 0 {
        let earlier = codes.drop_last();
        if entry_of(codes.last()) is Some && k == filed(earlier).len() {
            assert(entry_of(codes[codes.len() - 1]) == Some(filed(codes)[k]));
        } else {
            lemma_filed_found(earlier, k);
            let j = choose|j: int|
                0 <= j < earlier.len() && entry_of(#[trigger] earlier[j]) == Some(
                    filed(earlier)[k],
                );
            assert(entry_of(codes[j]) == Some(filed(codes)[k]));
        }
    }
}

/// Each of the ordered entries is one of the entries.
pub proof fn lemma_ordered_member(s: Seq<Filed>, i: int)
    requires
        0 <= i < ordered(s).len(),
    ensures
        s.contains(ordered(s)[i]),
{
    broadcast use vstd::seq_lib::group_to_multiset_ensures;

    lemma_ordered_permutes(s);
    let x = ordered(s)[i];
    assert(ordered(s).contains(x));
    assert(ordered(s).to_multiset().count(x) > 0);
}

/// Puts an entry into sorted entries, behind the last entry that may stand
/// before it.
fn insert_entry(out: &mut Vec<RegionFromCountryCodeStr>, entry: RegionFromCountryCodeStr)
    ensures
        views(final(out)@) == inserted(views(old(out)@), (entry.code(), entry.region())),
{
    let ghost all = views(out@);
    let ghost e = (entry.code(), entry.region());
    let mut pos: usize = out.len();
    let mut placed = false;
    assert(all.take(pos as int) =~= all);
    assert(all.skip(pos as int) =~= Seq::<Filed>::empty());
    while pos > 0 && !placed
        invariant
            out@ == old(out)@,
            all == views(out@),
            e == (entry.code(), entry.region()),
            0 <= pos <= out@.len(),
            placed ==> pos > 0 && in_order(all[pos - 1], e),
            inserted(all, e) == inserted(all.take(pos as int), e) + all.skip(pos as int),
        decreases pos + if placed { 0int } else { 1int },
    {
        if text_le(out[pos - 1].country_code(), entry.country_code()) {
            placed = true;
        } else {
            assert(all.take(pos as int).drop_last() =~= all.take(pos - 1));
            assert(all.take(pos as int).last() == all[pos - 1]);
            assert(inserted(all.take(pos - 1), e).push(all[pos - 1]) + all.skip(pos as int)
                =~= inserted(all.take(pos - 1), e) + all.skip(pos - 1));
            pos = pos - 1;
        }
    }
    assert(inserted(all.take(pos as int), e) == all.take(pos as int).push(e)) by {
        if pos > 0 {
            assert(all.take(pos as int).last() == all[pos - 1]);
        }
    }
    assert(all.take(pos as int).push(e) + all.skip(pos as int) =~= all.insert(pos as int, e));
    out.insert(pos, entry);
    assert(views(out@) =~= all.insert(pos as int, e));
}

/// The table for the countries that the given codes find: their entries in
/// the order of the country codes under which they are filed. A code that
/// finds no country with a region adds nothing.
pub fn region_table_from(codes: &Vec<String>) -> (r: Vec<RegionFromCountryCodeStr>)
    ensures
        views(r@) == ordered(filed(texts(codes@))),
{
    let mut out: Vec<RegionFromCountryCodeStr> = Vec::new();
    let ghost all = texts(codes@);
    let mut i: usize = 0;
    assert(all.take(0) =~= Seq::<Seq<char>>::empty());
    assert(views(out@) =~= Seq::<Filed>::empty());
    while i < codes.len()
        invariant
            0 <= i <= codes@.len(),
            all == texts(codes@),
            views(out@) == ordered(filed(all.take(i as int))),
        decreases codes@.len() - i,
    {
        assert(all.take(i + 1).drop_last() =~= all.take(i as int));
        assert(all.take(i + 1).last() == codes@[i as int]@);
        match entry_for(codes[i].as_str()) {
            Some(entry) => {
                assert(filed(all.take(i + 1)).drop_last() =~= filed(all.take(i as int)));
                insert_entry(&mut out, entry);
            },
            None => {},
        }
        i = i + 1;
    }
    assert(all.take(i as int) =~= all);
    out
}

/// The table of all countries that have a region, in the order of their
/// country codes.
///
/// The countries are those that the list of country codes holds. The order
/// of that list is not known, but what it holds is: each country once, and
/// among the codes of three bytes exactly those for which a country is
/// found. So the table is sorted, and each of its entries is the entry of
/// a country. The entry of every country that is found by a code of three
/// bytes and has a region is in the table. And the table is what
/// [`region_table_from`] makes of a list that holds the countries in this
/// way.
pub fn region_table() -> (r: Vec<RegionFromCountryCodeStr>)
    ensures
        sorted(views(r@)),
        forall|i: int|
            0 <= i < r@.len() ==> exists|c: Seq<char>|
                entry_of(c) == Some(#[trigger] views(r@)[i]),
        forall|c: Seq<char>|
            vstd::utf8::encode_utf8(c).len() == 3 && entry_of(c) is Some ==> views(r@).contains(
                (#[trigger] entry_of(c))->0,
            ),
        exists|codes: Seq<Seq<char>>|
            lists_countries(codes) && views(r@) == #[trigger] ordered(filed(codes)),
{
    let codes = all_country_codes();
    let r = region_table_from(&codes);
    proof {
        let listed = texts(codes@);
        let given = filed(listed);
        lemma_ordered_sorted(given);
        assert forall|i: int| 0 <= i < r@.len() implies exists|c: Seq<char>|
            entry_of(c) == Some(#[trigger] views(r@)[i]) by {
            lemma_ordered_member(given, i);
            let k = choose|k: int| 0 <= k < given.len() && given[k] == ordered(given)[i];
            lemma_filed_found(listed, k);
        }
        assert forall|c: Seq<char>|
            vstd::utf8::encode_utf8(c).len() == 3 && entry_of(c) is Some implies views(
            r@,
        ).contains((#[trigger] entry_of(c))->0) by {
            assert(country_info(c) is Some);
            assert(listed.contains(c));
            let j = choose|j: int| 0 <= j < listed.len() && listed[j] == c;
            lemma_filed_holds(listed, j);
            lemma_ordered_holds(given, entry_of(c)->0);
        }
        assert(lists_countries(listed) && views(r@) == ordered(filed(listed)));
    }
    r
}

/// Whether `codes` list the countries that are known by a code of three
/// bytes, each once: no code stands twice, and a code of three bytes is
/// listed if and only if a country is found for it.
pub open spec fn lists_countries(codes: Seq<Seq<char>>) -> bool {
    &&& codes.no_duplicates()
    &&& forall|c: Seq<char>|
        #![trigger country_info(c)]
        #![trigger codes.contains(c)]
        vstd::utf8::encode_utf8(c).len() == 3 ==> (codes.contains(c) <==> country_info(c) is Some)
}

/// Calls `locale_codes::country::all_codes`, which hands out the keys of the
/// table of countries that the crate carries, in the order in which a hash
/// map is walked. Nothing is claimed of that order. What is claimed holds of
/// every order: the keys of a map differ from each other, and
/// `locale_codes::country::lookup` finds a country for a code of three bytes
/// exactly where that code is a key of the table.
#[verifier::external_body]
fn all_country_codes() -> (r: Vec<String>)
    ensures
        lists_countries(texts(r@)),
{
    locale_codes::country::all_codes()
}

/// The entry of each code that finds a country with a region is among the
/// entries that the codes give.
proof fn lemma_filed_holds(codes: Seq<Seq<char>>, j: int)
    requires
        0 <= j < codes.len(),
        entry_of(codes[j]) is Some,
    ensures
        filed(codes).contains(entry_of(codes[j])->0),
    decreases codes.len(),
{
    let earlier = codes.drop_last();
    let x = entry_of(codes[j])->0;
    if j == codes.len() - 1 {
        assert(filed(codes)[filed(codes).len() - 1] == x);
    } else {
        lemma_filed_holds(earlier, j);
        let k = choose|k: int| 0 <= k < filed(earlier).len() && filed(earlier)[k] == x;
        assert(filed(codes)[k] == x);
    }
}

/// Ordering entries keeps each of them.
proof fn lemma_ordered_holds(s: Seq<Filed>, x: Filed)
    requires
        s.contains(x),
    ensures
        ordered(s).contains(x),
{
    broadcast use vstd::seq_lib::group_to_multiset_ensures;

    lemma_ordered_permutes(s);
    assert(s.to_multiset().count(x) > 0);
    assert(ordered(s).to_multiset().count(x) > 0);
}

} // verus!
