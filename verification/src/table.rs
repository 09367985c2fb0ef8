use vstd::prelude::*;
use crate::utils::{get_le, header_count, le_bytes, lemma_le_bytes_len, lemma_le_round_trip, put_le, records_in_file};

verus! {

/// Why a table could not be read or filled.
#[derive(Clone, Copy, Debug, PartialEq, Eq, Structural)]
pub enum TableError {
    /// The table ends before its header does.
    ShortHeader,
    /// The table ends before the last record that its header announces.
    ShortRecord,
    /// A record names a throw stage that has no hold decision.
    BadStage,
    /// The hit counts of the records add up to more than the counter holds.
    TooManyHits,
    /// The table's file could not be read.
    Unreadable,
}

/// A record of fixed width that a table file holds.
pub trait Record: Sized {
    /// The record's width in bytes.
    spec fn width() -> nat;

    /// The bytes that hold the record.
    spec fn to_bytes(&self) -> Seq<u8>;

    /// The record that `width()` bytes hold.
    spec fn from_bytes(bytes: Seq<u8>) -> Self;

    /// A record is read back from its own bytes.
    proof fn lemma_round_trip(&self)
        ensures
            0 < Self::width() <= 1024,
            self.to_bytes().len() == Self::width(),
            Self::from_bytes(self.to_bytes()) == *self,
    ;

    fn stride() -> (w: usize)
        ensures
            w == Self::width(),
            0 < w <= 1024,
    ;

    fn write(&self, out: &mut Vec<u8>)
        ensures
            final(out)@ == old(out)@ + self.to_bytes(),
    ;

    fn read(bytes: &Vec<u8>, at: usize) -> (record: Self)
        requires
            at + Self::width() <= bytes.len(),
        ensures
            record == Self::from_bytes(bytes@.subrange(at as int, at + Self::width())),
    ;
}

/// The bytes of the records, one after the other.
pub open spec fn records_bytes<R: Record>(records: Seq<R>) -> Seq<u8>
    decreases records.len(),
{
    if records.len() == 0 {
        Seq::empty()
    } else {
        records_bytes(records.drop_last()) + records.last().to_bytes()
    }
}

/// The `count` records that lie in `bytes` from `at` on, or the error that
/// the bytes end too early. Bytes behind the last record are not looked at.
pub open spec fn records_at<R: Record>(bytes: Seq<u8>, at: nat, count: nat) -> Result<
    Seq<R>,
    TableError,
> {
    if at + count * R::width() > bytes.len() {
        Err(TableError::ShortRecord)
    } else {
        Ok(
            Seq::new(
                count,
                |i: int|
                    R::from_bytes(
                        bytes.subrange(at + i * R::width(), at + i * R::width() + R::width()),
                    ),
            ),
        )
    }
}

/// A whole table: the record count in eight bytes, then the records.
pub open spec fn table_bytes<R: Record>(records: Seq<R>) -> Seq<u8> {
    le_bytes(records.len(), 8) + records_bytes(records)
}

/// The records of a whole table, or why it cannot be read.
pub open spec fn table_records<R: Record>(bytes: Seq<u8>) -> Result<Seq<R>, TableError> {
    match header_count(bytes) {
        Err(e) => Err(e),
        Ok(count) => records_at::<R>(bytes, 8, count as nat),
    }
}

/// A whole table is as long as its count and its records, and no longer.
pub proof fn lemma_table_bytes_len<R: Record>(records: Seq<R>)
    ensures
        table_bytes(records).len() == 8 + records.len() * R::width(),
{
    lemma_le_bytes_len(records.len(), 8);
    lemma_records_bytes_len(records);
}

/// The records take their width each.
pub proof fn lemma_records_bytes_len<R: Record>(records: Seq<R>)
    ensures
        records_bytes(records).len() == records.len() * R::width(),
    decreases records.len(),
{
    if records.len() > 0 {
        lemma_records_bytes_len(records.drop_last());
        records.last().lemma_round_trip();
        let n = records.len() as int;
        let w = R::width() as int;
        assert((n - 1) * w + w == n * w) by (nonlinear_arith);
    } else {
        assert(0 * R::width() == 0) by (nonlinear_arith);
    }
}

/// Record `i` lies at its place in the bytes of the records.
pub proof fn lemma_record_in_bytes<R: Record>(records: Seq<R>, i: int)
    requires
        0 <= i < records.len(),
    ensures
        i * R::width() + R::width() <= records_bytes(records).len(),
        records_bytes(records).subrange(i * R::width(), i * R::width() + R::width())
            == records[i].to_bytes(),
    decreases records.len(),
{
    let front = records.drop_last();
    let w = R::width() as int;
    let n = records.len() as int;
    lemma_records_bytes_len(front);
    lemma_records_bytes_len(records);
    records.last().lemma_round_trip();
    assert((n - 1) * w + w == n * w) by (nonlinear_arith);
    if i < n - 1 {
        lemma_record_in_bytes(front, i);
        assert(i * w + w <= (n - 1) * w) by (nonlinear_arith)
            requires
                i < n - 1,
                w > 0,
        ;
        assert(records_bytes(records).subrange(i * w, i * w + w) =~= records_bytes(
            front,
        ).subrange(i * w, i * w + w));
    } else {
        assert(records_bytes(records).subrange(i * w, i * w + w) =~= records.last().to_bytes());
    }
}

/// Records written at `at` behind any bytes are read back from there.
pub proof fn lemma_records_round_trip<R: Record>(head: Seq<u8>, records: Seq<R>, tail: Seq<u8>)
    ensures
        records_at::<R>(head + records_bytes(records) + tail, head.len(), records.len()) == Ok::<
            Seq<R>,
            TableError,
        >(records),
{
    let bytes = head + records_bytes(records) + tail;
    let w = R::width() as int;
    let at = head.len() as int;
    lemma_records_bytes_len(records);
    let read = Seq::new(
        records.len(),
        |i: int| R::from_bytes(bytes.subrange(at + i * w, at + i * w + w)),
    );
    assert forall|i: int| 0 <= i < records.len() implies read[i] == records[i] by {
        lemma_record_in_bytes(records, i);
        records[i].lemma_round_trip();
        assert(bytes.subrange(at + i * w, at + i * w + w) =~= records_bytes(records).subrange(
            i * w,
            i * w + w,
        ));
    }
    assert(read =~= records);
}

/// A table that was written is read back as the records that went in.
pub proof fn table_round_trip<R: Record>(records: Seq<R>)
    requires
        records.len() <= u64::MAX,
    ensures
        table_records::<R>(table_bytes(records)) == Ok::<Seq<R>, TableError>(records),
{
    let head = le_bytes(records.len(), 8);
    let bytes = table_bytes(records);
    assert(crate::utils::base_pow(256, 8) == 0x1_0000_0000_0000_0000) by {
        reveal_with_fuel(crate::utils::base_pow, 9);
    }
    lemma_le_round_trip(records.len(), 8);
    lemma_le_bytes_len(records.len(), 8);
    assert(bytes.subrange(0, 8) =~= head);
    lemma_records_round_trip(head, records, Seq::<u8>::empty());
    assert(head + records_bytes(records) + Seq::<u8>::empty() =~= bytes);
}

/// Appends the records, one after the other.
pub fn write_records<R: Record>(out: &mut Vec<u8>, records: &Vec<R>)
    ensures
        final(out)@ == old(out)@ + records_bytes(records@),
{
    let mut i: usize = 0;
    assert(old(out)@ + records_bytes(records@.take(0)) =~= old(out)@);
    while i < records.len()
        invariant
            i <= records.len(),
            out@ == old(out)@ + records_bytes(records@.take(i as int)),
        decreases records.len() - i,
    {
        let ghost before = out@;
        records[i].write(out);
        proof {
            let next = records@.take(i as int + 1);
            assert(next.drop_last() =~= records@.take(i as int));
            assert(next.last() == records@[i as int]);
            assert(out@ =~= old(out)@ + records_bytes(next));
        }
        i += 1;
    }
    assert(records@.take(i as int) =~= records@);
}

/// Reads `count` records from `at` on; fails, and gives nothing, where the
/// bytes end before the last of them.
pub fn read_records<R: Record>(bytes: &Vec<u8>, at: usize, count: u64) -> (records: Result<
    Vec<R>,
    TableError,
>)
    requires
        at <= bytes.len(),
    ensures
        match records {
            Ok(v) => records_at::<R>(bytes@, at as nat, count as nat) == Ok::<
                Seq<R>,
                TableError,
            >(v@),
            Err(e) => records_at::<R>(bytes@, at as nat, count as nat) == Err::<
                Seq<R>,
                TableError,
            >(e),
        },
{
    let w = R::stride();
    let room = (bytes.len() - at) / w;
    proof {
        let c = count as int;
        let wi = w as int;
        let avail = (bytes.len() - at) as int;
        assert((c <= avail / wi) <==> (c * wi <= avail)) by (nonlinear_arith)
            requires
                wi > 0,
                avail >= 0,
                c >= 0,
        ;
    }
    if count > room as u64 {
        return Err(TableError::ShortRecord);
    }
    let n = count as usize;
    let mut records: Vec<R> = Vec::new();
    let mut i: usize = 0;
    while i < n
        invariant
            i <= n,
            n == count,
            w == R::width(),
            0 < w <= 1024,
            at + n * w <= bytes.len(),
            records@.len() == i,
            forall|k: int|
                0 <= k < i ==> records@[k] == R::from_bytes(
                    bytes@.subrange(at + k * w, at + k * w + w),
                ),
        decreases n - i,
    {
        proof {
            let ii = i as int;
            let ni = n as int;
            let wi = w as int;
            assert(ii * wi + wi <= ni * wi) by (nonlinear_arith)
                requires
                    ii < ni,
                    wi > 0,
                    ii >= 0,
            ;
            assert(ii * wi >= 0) by (nonlinear_arith)
                requires
                    ii >= 0,
                    wi > 0,
            ;
        }
        let record = R::read(bytes, at + i * w);
        records.push(record);
        i += 1;
    }
    proof {
        let expected = records_at::<R>(bytes@, at as nat, count as nat);
        assert(expected is Ok);
        assert(expected->Ok_0 =~= records@);
    }
    Ok(records)
}

/// Writes a whole table: the record count, then the records.
pub fn encode_table<R: Record>(records: &Vec<R>) -> (bytes: Vec<u8>)
    ensures
        bytes@ == table_bytes(records@),
{
    let mut bytes: Vec<u8> = Vec::new();
    put_le(&mut bytes, records.len() as u64, 8);
    write_records(&mut bytes, records);
    assert(bytes@ =~= table_bytes(records@));
    bytes
}

/// Reads a whole table; no part of a table that ends early is accepted.
pub fn decode_table<R: Record>(bytes: &Vec<u8>) -> (records: Result<Vec<R>, TableError>)
    ensures
        match records {
            Ok(v) => table_records::<R>(bytes@) == Ok::<Seq<R>, TableError>(v@),
            Err(e) => table_records::<R>(bytes@) == Err::<Seq<R>, TableError>(e),
        },
{
    match records_in_file(bytes) {
        Err(e) => Err(e),
        Ok(count) => read_records(bytes, 8, count),
    }
}

} // verus!
