use crate::addr::{Address, AddressFamily, Families, IpAddress};
use crate::builder::{accepts, advance, fresh, sound, span_of, Progress, RangeIndexBuilder, Span};
use crate::data::{fields_of, IpData};
use crate::error::Error;
use crate::index::{ascending, compressed, value_at, RangeIndex};
use crate::replay::{lemma_range_resolves, replay, within};
use crate::text::{address_text, parse_address};
use vstd::prelude::*;

verus! {

/// How far the loading of a database has come: the families that it is to
/// hold, and the state of the builder of each family.
pub struct Loading<V> {
    pub families: Families,
    pub v4: Progress<V>,
    pub v6: Progress<V>,
}

/// The state before any record.
pub open spec fn begun<V>(families: Families) -> Loading<V> {
    Loading { families, v4: fresh(), v6: fresh() }
}

/// The state of one family after it was offered the range `span`, or the
/// error where the range is out of order.
pub open spec fn offered<V>(p: Progress<V>, span: Span<V>, top: nat) -> Result<Progress<V>, Error> {
    if accepts(p, span) {
        Ok(advance(p, span, top))
    } else {
        Err(Error::AddrOutOfOrder)
    }
}

/// What one record does to a loading database.
///
/// The value is derived first: a record that yields none is passed over,
/// whatever else it holds, and one that cannot be used ends the load. Then
/// the first two fields are read as the two ends of a range. They must be
/// addresses, of one family. The range of a family that the database does
/// not hold is passed over. Any other must be in order for the builder of
/// its family, which alone changes.
pub open spec fn record_step<V: IpData>(state: Loading<V>, fields: Seq<Seq<u8>>) -> Result<
    Loading<V>,
    Error,
> {
    match V::derived(fields) {
        Err(e) => Err(e),
        Ok(None) => Ok(state),
        Ok(Some(value)) => if fields.len() < 2 {
            Err(Error::InvalidRecord)
        } else {
            match (address_text(fields[0]), address_text(fields[1])) {
                (Some(IpAddress::V4(s)), Some(IpAddress::V4(e))) => if !state.families.v4 {
                    Ok(state)
                } else {
                    match offered(state.v4, span_of(s, e, value), u32::ceiling()) {
                        Ok(v4) => Ok(Loading { families: state.families, v4, v6: state.v6 }),
                        Err(e) => Err(e),
                    }
                },
                (Some(IpAddress::V6(s)), Some(IpAddress::V6(e))) => if !state.families.v6 {
                    Ok(state)
                } else {
                    match offered(state.v6, span_of(s, e, value), u128::ceiling()) {
                        Ok(v6) => Ok(Loading { families: state.families, v4: state.v4, v6 }),
                        Err(e) => Err(e),
                    }
                },
                (Some(_), Some(_)) => Err(Error::AddrMismatch),
                _ => Err(Error::AddrParse),
            }
        },
    }
}

/// The rows that a source delivered: the fields of each record that could be
/// read, `None` in the place of one that could not.
pub open spec fn rows_of<E>(records: Seq<Result<Vec<String>, E>>) -> Seq<Option<Seq<Seq<u8>>>> {
    Seq::new(
        records.len(),
        |i: int|
            match records[i] {
                Ok(record) => Some(fields_of(record@)),
                Err(_) => None,
            },
    )
}

/// The state after loading `rows` in order into a database of the given
/// families, or the error of the first row that fails: a row that could not
/// be read, or a record that is refused.
pub open spec fn load<V: IpData>(families: Families, rows: Seq<Option<Seq<Seq<u8>>>>) -> Result<
    Loading<V>,
    Error,
>
    decreases rows.len(),
{
    if rows.len() == 0 {
        Ok(begun(families))
    } else {
        match load::<V>(families, rows.drop_last()) {
            Err(e) => Err(e),
            Ok(state) => match rows.last() {
                None => Err(Error::SourceRead),
                Some(fields) => record_step(state, fields),
            },
        }
    }
}

/// The range that a record hands to the builder of one family: that of
/// IPv4 where `v6` is false, that of IPv6 where it is true. There is none
/// where the record yields no value or its ends are not two addresses of
/// that family.
pub open spec fn span_for<V: IpData>(fields: Seq<Seq<u8>>, v6: bool) -> Option<Span<V>> {
    match V::derived(fields) {
        Ok(Some(value)) => if fields.len() < 2 {
            None
        } else {
            match (address_text(fields[0]), address_text(fields[1])) {
                (Some(IpAddress::V4(s)), Some(IpAddress::V4(e))) => if v6 {
                    None
                } else {
                    Some(span_of(s, e, value))
                },
                (Some(IpAddress::V6(s)), Some(IpAddress::V6(e))) => if v6 {
                    Some(span_of(s, e, value))
                } else {
                    None
                },
                _ => None,
            }
        },
        _ => None,
    }
}

/// The ranges that the rows hand to the builder of one family, in order.
pub open spec fn spans_for<V: IpData>(rows: Seq<Option<Seq<Seq<u8>>>>, v6: bool) -> Seq<Span<V>>
    decreases rows.len(),
{
    if rows.len() == 0 {
        Seq::empty()
    } else {
        let earlier = spans_for::<V>(rows.drop_last(), v6);
        match rows.last() {
            Some(fields) => match span_for::<V>(fields, v6) {
                Some(span) => earlier.push(span),
                None => earlier,
            },
            None => earlier,
        }
    }
}

/// A load that succeeds leaves each family that the database holds in the
/// state of a builder that took the ranges of that family, one after the
/// other, and leaves a family that it does not hold without entries. So
/// what holds of the index that a builder makes of ranges holds of each
/// index of a loaded database.
pub proof fn lemma_load_replays<V: IpData>(families: Families, rows: Seq<Option<Seq<Seq<u8>>>>)
    requires
        load::<V>(families, rows) is Ok,
    ensures
        load::<V>(families, rows)->Ok_0.families == families,
        within(spans_for::<V>(rows, false), u32::ceiling()),
        within(spans_for::<V>(rows, true), u128::ceiling()),
        load::<V>(families, rows)->Ok_0.v4 == if families.v4 {
            replay(spans_for::<V>(rows, false), u32::ceiling())->0
        } else {
            fresh()
        },
        load::<V>(families, rows)->Ok_0.v6 == if families.v6 {
            replay(spans_for::<V>(rows, true), u128::ceiling())->0
        } else {
            fresh()
        },
        families.v4 ==> replay(spans_for::<V>(rows, false), u32::ceiling()) is Some,
        families.v6 ==> replay(spans_for::<V>(rows, true), u128::ceiling()) is Some,
    decreases rows.len(),
{
    if rows.len() > 0 {
        let earlier = rows.drop_last();
        lemma_load_replays::<V>(families, earlier);
        let fields = rows.last()->0;
        let s4 = spans_for::<V>(rows, false);
        let s6 = spans_for::<V>(rows, true);
        if span_for::<V>(fields, false) is Some {
            assert(s4.drop_last() =~= spans_for::<V>(earlier, false));
        }
        if span_for::<V>(fields, true) is Some {
            assert(s6.drop_last() =~= spans_for::<V>(earlier, true));
        }
    }
}

/// Every address inside a range that a loaded database took resolves to the
/// value of that range, in the index of a family that the database holds.
pub proof fn lemma_loaded_range_resolves<V: IpData>(
    families: Families,
    rows: Seq<Option<Seq<Seq<u8>>>>,
    v6: bool,
    i: int,
    x: nat,
)
    requires
        load::<V>(families, rows) is Ok,
        if v6 {
            families.v6
        } else {
            families.v4
        },
        0 <= i < spans_for::<V>(rows, v6).len(),
        spans_for::<V>(rows, v6)[i].start <= x <= spans_for::<V>(rows, v6)[i].end,
    ensures
        value_at(
            if v6 {
                load::<V>(families, rows)->Ok_0.v6.entries
            } else {
                load::<V>(families, rows)->Ok_0.v4.entries
            },
            x,
        ) == Some(spans_for::<V>(rows, v6)[i].value),
{
    lemma_load_replays::<V>(families, rows);
    if v6 {
        lemma_range_resolves(spans_for::<V>(rows, true), u128::ceiling(), i, x);
    } else {
        lemma_range_resolves(spans_for::<V>(rows, false), u32::ceiling(), i, x);
    }
}

/// A record whose ends are addresses of different families is refused as
/// such, whatever the state, provided that it yields a value: the value is
/// derived first, and a record without one is passed over or refused before
/// its ends are read.
pub proof fn lemma_mixed_families_refused<V: IpData>(state: Loading<V>, fields: Seq<Seq<u8>>)
    requires
        V::derived(fields) matches Ok(Some(_)),
        fields.len() >= 2,
        address_text(fields[0]) is Some,
        address_text(fields[1]) is Some,
        (address_text(fields[0])->0 is V4) != (address_text(fields[1])->0 is V4),
    ensures
        record_step(state, fields) == Err::<Loading<V>, Error>(Error::AddrMismatch),
{
}

/// Once a row has failed, the load has failed with its error.
pub proof fn lemma_load_stays_failed<V: IpData>(
    families: Families,
    rows: Seq<Option<Seq<Seq<u8>>>>,
    m: int,
)
    requires
        0 <= m <= rows.len(),
        load::<V>(families, rows.take(m)) is Err,
    ensures
        load::<V>(families, rows) == load::<V>(families, rows.take(m)),
    decreases rows.len(),
{
    if m == rows.len() {
        assert(rows.take(m) =~= rows);
    } else {
        assert(rows.drop_last().take(m) =~= rows.take(m));
        lemma_load_stays_failed::<V>(families, rows.drop_last(), m);
    }
}

/// Whether a state keeps the families that are not held without entries.
pub open spec fn kept_apart<V>(state: Loading<V>) -> bool {
    &&& !state.families.v4 ==> state.v4 == fresh::<V>()
    &&& !state.families.v6 ==> state.v6 == fresh::<V>()
}

/// Builds a [`DbIpDatabase`] from records that arrive in ascending order of
/// their addresses within each family.
pub struct DbIpDatabaseBuilder<V> {
    families: Families,
    v4: RangeIndexBuilder<u32, V>,
    v6: RangeIndexBuilder<u128, V>,
}

impl<V: IpData> View for DbIpDatabaseBuilder<V> {
    type V = Loading<V>;

    /// How far the loading has come.
    closed spec fn view(&self) -> Loading<V> {
        Loading { families: self.families, v4: self.v4@, v6: self.v6@ }
    }
}

impl<V: IpData> DbIpDatabaseBuilder<V> {
    /// Whether each stored start of either family has its value.
    pub closed spec fn aligned(&self) -> bool {
        self.v4.aligned() && self.v6.aligned()
    }

    /// The invariant of a builder.
    pub open spec fn wf(&self) -> bool {
        &&& self.aligned()
        &&& sound(self@.v4)
        &&& sound(self@.v6)
        &&& kept_apart(self@)
    }

    /// A builder for a database of both families that has seen no record.
    pub fn new() -> (r: Self)
        ensures
            r.wf(),
            r@ == begun::<V>(Families { v4: true, v6: true }),
    {
        DbIpDatabaseBuilder::for_families(Families::all())
    }

    /// A builder for a database of the given families that has seen no record.
    pub fn for_families(families: Families) -> (r: Self)
        ensures
            r.wf(),
            r@ == begun::<V>(families),
    {
        DbIpDatabaseBuilder { families, v4: RangeIndexBuilder::new(), v6: RangeIndexBuilder::new() }
    }

    /// Takes one record. On an error the builder is left as it was.
    pub fn push_record(&mut self, record: &Vec<String>) -> (r: Result<(), Error>)
        requires
            old(self).wf(),
        ensures
            final(self).wf(),
            final(self)@.families == old(self)@.families,
            match record_step(old(self)@, fields_of(record@)) {
                Ok(state) => r is Ok && final(self)@ == state,
                Err(e) => r == Err::<(), Error>(e) && *final(self) == *old(self),
            },
    {
        let value = match V::from_record(record) {
            Err(e) => {
                return Err(e);
            },
            Ok(None) => {
                return Ok(());
            },
            Ok(Some(v)) => v,
        };
        if record.len() < 2 {
            return Err(Error::InvalidRecord);
        }
        let start = parse_address(record[0].as_str().as_bytes());
        let end = parse_address(record[1].as_str().as_bytes());
        match (start, end) {
            (Some(IpAddress::V4(s)), Some(IpAddress::V4(e))) => {
                if self.families.v4 {
                    self.v4.push(s, e, e.successor(), value)
                } else {
                    Ok(())
                }
            },
            (Some(IpAddress::V6(s)), Some(IpAddress::V6(e))) => {
                if self.families.v6 {
                    self.v6.push(s, e, e.successor(), value)
                } else {
                    Ok(())
                }
            },
            (Some(_), Some(_)) => Err(Error::AddrMismatch),
            _ => Err(Error::AddrParse),
        }
    }

    /// Hands out the database built from the records taken so far.
    pub fn finish(self) -> (r: DbIpDatabase<V>)
        requires
            self.wf(),
        ensures
            r.wf(),
            r.families() == self@.families,
            r.v4() == self@.v4.entries,
            r.v6() == self@.v6.entries,
    {
        DbIpDatabase { families: self.families, v4: self.v4.finish(), v6: self.v6.finish() }
    }
}

/// A database of values by address: an index for each family that it holds.
pub struct DbIpDatabase<V> {
    families: Families,
    v4: RangeIndex<u32, V>,
    v6: RangeIndex<u128, V>,
}

/// The short name of [`DbIpDatabase`].
pub type DbIp<V> = DbIpDatabase<V>;

impl<V: IpData> DbIpDatabase<V> {
    /// The families that the database holds.
    pub closed spec fn families(&self) -> Families {
        self.families
    }

    /// The entries of the IPv4 index. There are none where the database
    /// does not hold the family.
    pub closed spec fn v4(&self) -> Seq<(nat, Option<V>)> {
        self.v4@
    }

    /// The entries of the IPv6 index. There are none where the database
    /// does not hold the family.
    pub closed spec fn v6(&self) -> Seq<(nat, Option<V>)> {
        self.v6@
    }

    /// Whether each stored start of either family has its value.
    pub closed spec fn aligned(&self) -> bool {
        self.v4.aligned() && self.v6.aligned()
    }

    /// The invariant of a database: both indexes are valid, and that of a
    /// family which is not held is empty.
    pub open spec fn wf(&self) -> bool {
        &&& self.aligned()
        &&& ascending(self.v4())
        &&& compressed(self.v4())
        &&& ascending(self.v6())
        &&& compressed(self.v6())
        &&& !self.families().v4 ==> self.v4().len() == 0
        &&& !self.families().v6 ==> self.v6().len() == 0
    }

    /// The database made of an index for each family that it is to hold.
    pub fn from_indexes(v4: Option<RangeIndex<u32, V>>, v6: Option<RangeIndex<u128, V>>) -> (r:
        Self)
        requires
            v4 matches Some(index) ==> index.wf(),
            v6 matches Some(index) ==> index.wf(),
        ensures
            r.wf(),
            r.families() == (Families { v4: v4 is Some, v6: v6 is Some }),
            r.v4() == match v4 {
                Some(index) => index@,
                None => Seq::empty(),
            },
            r.v6() == match v6 {
                Some(index) => index@,
                None => Seq::empty(),
            },
    {
        let families = Families { v4: v4.is_some(), v6: v6.is_some() };
        let v4 = match v4 {
            Some(index) => index,
            None => RangeIndex::new(),
        };
        let v6 = match v6 {
            Some(index) => index,
            None => RangeIndex::new(),
        };
        DbIpDatabase { families, v4, v6 }
    }

    /// The families that the database holds.
    pub fn held(&self) -> (r: Families)
        ensures
            r == self.families(),
    {
        self.families
    }

    /// The index of the IPv4 addresses.
    pub fn index_v4(&self) -> (r: &RangeIndex<u32, V>)
        ensures
            r@ == self.v4(),
            self.wf() ==> r.wf(),
    {
        &self.v4
    }

    /// The index of the IPv6 addresses.
    pub fn index_v6(&self) -> (r: &RangeIndex<u128, V>)
        ensures
            r@ == self.v6(),
            self.wf() ==> r.wf(),
    {
        &self.v6
    }

    /// Loads a database of both families from the records of a source, in
    /// order. The first row that could not be read, or whose record is
    /// refused, ends the load with its error.
    pub fn from_records<E>(records: &Vec<Result<Vec<String>, E>>) -> (r: Result<Self, Error>)
        ensures
            match load::<V>(Families { v4: true, v6: true }, rows_of(records@)) {
                Ok(state) => r matches Ok(db) && db.wf() && db.families() == (Families {
                    v4: true,
                    v6: true,
                }) && db.v4() == state.v4.entries && db.v6() == state.v6.entries,
                Err(e) => r matches Err(x) && x == e,
            },
    {
        DbIpDatabase::from_records_for(Families::all(), records)
    }

    /// Loads a database of the given families from the records of a source,
    /// in order. The first row that could not be read, or whose record is
    /// refused, ends the load with its error.
    pub fn from_records_for<E>(families: Families, records: &Vec<Result<Vec<String>, E>>) -> (r:
        Result<Self, Error>)
        ensures
            match load::<V>(families, rows_of(records@)) {
                Ok(state) => r matches Ok(db) && db.wf() && db.families() == families && db.v4()
                    == state.v4.entries && db.v6() == state.v6.entries,
                Err(e) => r matches Err(x) && x == e,
            },
    {
        let mut builder: DbIpDatabaseBuilder<V> = DbIpDatabaseBuilder::for_families(families);
        let ghost rows = rows_of(records@);
        let mut i: usize = 0;
        assert(rows.take(0) =~= Seq::<Option<Seq<Seq<u8>>>>::empty());
        while i < records.len()
            invariant
                0 <= i <= records@.len(),
                rows == rows_of(records@),
                builder.wf(),
                builder@.families == families,
                load::<V>(families, rows.take(i as int)) == Ok::<Loading<V>, Error>(builder@),
            decreases records@.len() - i,
        {
            assert(rows.take(i + 1).drop_last() =~= rows.take(i as int));
            match &records[i] {
                Err(_) => {
                    proof {
                        lemma_load_stays_failed::<V>(families, rows, i + 1);
                    }
                    return Err(Error::SourceRead);
                },
                Ok(record) => {
                    match builder.push_record(record) {
                        Err(e) => {
                            proof {
                                lemma_load_stays_failed::<V>(families, rows, i + 1);
                            }
                            return Err(e);
                        },
                        Ok(()) => {},
                    }
                },
            }
            i = i + 1;
        }
        assert(rows.take(i as int) =~= rows);
        Ok(builder.finish())
    }

    /// The value recorded for an IPv4 address.
    pub fn get_v4(&self, addr: u32) -> (r: Option<V>)
        requires
            self.wf(),
        ensures
            r == value_at(self.v4(), addr as nat),
    {
        self.v4.lookup(addr)
    }

    /// The value recorded for an IPv6 address.
    pub fn get_v6(&self, addr: u128) -> (r: Option<V>)
        requires
            self.wf(),
        ensures
            r == value_at(self.v6(), addr as nat),
    {
        self.v6.lookup(addr)
    }

    /// The value recorded for an address of either family, looked up in the
    /// index of its family.
    pub fn get(&self, addr: IpAddress) -> (r: Option<V>)
        requires
            self.wf(),
        ensures
            r == match addr {
                IpAddress::V4(a) => value_at(self.v4(), a as nat),
                IpAddress::V6(a) => value_at(self.v6(), a as nat),
            },
    {
        match addr {
            IpAddress::V4(a) => self.get_v4(a),
            IpAddress::V6(a) => self.get_v6(a),
        }
    }

    /// The number of range starts stored for IPv4.
    pub fn len_v4(&self) -> (n: usize)
        ensures
            n == self.v4().len(),
    {
        self.v4.len()
    }

    /// The number of range starts stored for IPv6.
    pub fn len_v6(&self) -> (n: usize)
        ensures
            n == self.v6().len(),
    {
        self.v6.len()
    }

    /// The number of range starts stored for a family.
    pub fn count(&self, family: AddressFamily) -> (n: usize)
        ensures
            n == match family {
                AddressFamily::V4 => self.v4().len(),
                AddressFamily::V6 => self.v6().len(),
            },
    {
        match family {
            AddressFamily::V4 => self.len_v4(),
            AddressFamily::V6 => self.len_v6(),
        }
    }
}

} // verus!
