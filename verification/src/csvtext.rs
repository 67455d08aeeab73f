//! Rows of text fields as CSV bytes, and back.
use vstd::prelude::*;
use crate::text::texts;

verus! {

/// The bytes that the `csv` crate writes for one record of the given
/// fields, with its default settings: the fields, quoted where needed and
/// separated by commas, and the record terminator. `None` where it reports
/// an error.
pub uninterp spec fn csv_line_of(fields: Seq<Seq<char>>) -> Option<Seq<u8>>;

/// The records that the `csv` crate reads from the given bytes, with its
/// default settings, in order: the fields of each record behind the first,
/// which is taken as the header, or `None` in place of a record for which
/// it reports an error.
pub uninterp spec fn csv_rows_of(data: Seq<u8>) -> Seq<Option<Seq<Seq<char>>>>;

/// The fields of each row, as characters.
pub open spec fn row_texts(rows: Seq<Option<Vec<String>>>) -> Seq<Option<Seq<Seq<char>>>> {
    Seq::new(
        rows.len(),
        |i: int|
            match rows[i] {
                Some(fields) => Some(texts(fields@)),
                None => None,
            },
    )
}

/// One record as the `csv` crate writes it: `csv::Writer::from_writer` on
/// an empty byte vector, `Writer::write_record` with the fields, and
/// `Writer::into_inner` for what was written. The contract names the
/// result and claims no more than that it depends on the fields alone.
#[verifier::external_body]
pub(crate) fn csv_line(fields: &Vec<String>) -> (line: Option<Vec<u8>>)
    ensures
        match line {
            Some(bytes) => csv_line_of(texts(fields@)) == Some(bytes@),
            None => csv_line_of(texts(fields@)) is None,
        },
{
    let mut writer = csv::Writer::from_writer(Vec::new());
    writer.write_record(fields).ok()?;
    writer.into_inner().ok()
}

/// The records of CSV data as the `csv` crate reads them:
/// `csv::ReaderBuilder::new`, `ReaderBuilder::from_reader` on the bytes,
/// and `Reader::records`, each record turned into its fields and each
/// error into `None`. The contract names the result and claims no more
/// than that it depends on the bytes alone.
#[verifier::external_body]
pub(crate) fn csv_rows(data: &[u8]) -> (rows: Vec<Option<Vec<String>>>)
    ensures
        row_texts(rows@) == csv_rows_of(data@),
{
    csv::ReaderBuilder::new()
        .from_reader(data)
        .records()
        .map(|row| row.ok().map(|record| record.iter().map(|field| field.to_owned()).collect()))
        .collect()
}

} // verus!
