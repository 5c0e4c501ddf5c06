//! Records of byte fields, as the `csv` crate holds them.

use vstd::prelude::*;
use csv::ByteRecord;

verus! {

/// `csv::ByteRecord`, of which the verifier sees nothing but the fields that
/// [`record_fields`] names.
#[verifier::external_type_specification]
#[verifier::external_body]
pub struct ExByteRecord(ByteRecord);

/// The fields of a record, in order.
pub uninterp spec fn record_fields(record: ByteRecord) -> Seq<Seq<u8>>;

/// `ByteRecord::new`: a record without fields.
#[verifier::external_body]
pub(crate) fn record_new() -> (r: ByteRecord)
    ensures
        record_fields(r) == Seq::<Seq<u8>>::empty(),
{
    ByteRecord::new()
}

/// `ByteRecord::push_field`: the record gains `field` as its last field and
/// keeps the others. The bounds that the method computes are sums of lengths
/// of byte buffers that exist at the same time, which a `usize` holds.
#[verifier::external_body]
pub(crate) fn record_push(record: &mut ByteRecord, field: &[u8])
    ensures
        record_fields(*final(record)) == record_fields(*old(record)).push(field@),
{
    record.push_field(field)
}

/// `ByteRecord::len`: the number of fields.
#[verifier::external_body]
pub(crate) fn record_len(record: &ByteRecord) -> (n: usize)
    ensures
        n == record_fields(*record).len(),
{
    record.len()
}

/// `ByteRecord::get`: the field at index `i`, or `None` where the record has
/// no such field.
#[verifier::external_body]
pub(crate) fn record_get<'a>(record: &'a ByteRecord, i: usize) -> (f: Option<&'a [u8]>)
    ensures
        match f {
            Some(field) => i < record_fields(*record).len() && field@ == record_fields(
                *record,
            )[i as int],
            None => i >= record_fields(*record).len(),
        },
{
    record.get(i)
}

} // verus!
