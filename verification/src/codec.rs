//! Table files as delimited text: the `csv` crate does the reading and the
//! writing, on bytes held in memory.

use vstd::prelude::*;
use crate::text::names_view;

verus! {

/// The error type of the `csv` crate.
#[verifier::external_type_specification]
#[verifier::external_body]
pub struct ExCsvError(csv::Error);

/// The contents of a list of records.
pub open spec fn rows_view(rows: Seq<Vec<String>>) -> Seq<Seq<Seq<char>>> {
    Seq::new(rows.len(), |i: int| names_view(rows[i]@))
}

/// The text that one `csv` writer with default settings produces for `rows`,
/// written in order; `None` where it reports an error.
pub uninterp spec fn csv_encoded(rows: Seq<Seq<Seq<char>>>) -> Option<Seq<u8>>;

/// What a `csv` reader with default settings makes of `bytes`: the header
/// record and the records after it; `None` where it reports an error.
pub uninterp spec fn csv_decoded(bytes: Seq<u8>) -> Option<(Seq<Seq<char>>, Seq<Seq<Seq<char>>>)>;

/// Writes `rows` with one `csv::Writer` of default settings into a byte
/// vector: `csv::Writer::write_record` once per row, then
/// `csv::Writer::into_inner`. The contract only names the outcome: the bytes
/// written, or that the writer failed.
#[verifier::external_body]
pub(crate) fn encode(rows: &Vec<Vec<String>>) -> (out: Result<Vec<u8>, csv::Error>)
    ensures
        match out {
            Ok(bytes) => csv_encoded(rows_view(rows@)) == Some(bytes@),
            Err(_) => csv_encoded(rows_view(rows@)) is None,
        },
{
    let mut writer = csv::WriterBuilder::new().from_writer(Vec::new());
    for row in rows {
        writer.write_record(row)?;
    }
    writer.into_inner().map_err(|e| csv::Error::from(e.into_error()))
}

/// Reads `bytes` with one `csv::Reader` of default settings:
/// `csv::Reader::headers` for the first record, `csv::Reader::records` for
/// the rest, stopping at the first error. The contract only names the
/// outcome: header and records, or that the reader failed.
#[verifier::external_body]
pub(crate) fn decode(bytes: &[u8]) -> (out: Result<(Vec<String>, Vec<Vec<String>>), csv::Error>)
    ensures
        match out {
            Ok(table) => csv_decoded(bytes@) == Some((names_view(table.0@), rows_view(table.1@))),
            Err(_) => csv_decoded(bytes@) is None,
        },
{
    let mut reader = csv::ReaderBuilder::new().from_reader(bytes);
    let header: Vec<String> = reader.headers()?.iter().map(|f| f.to_string()).collect();
    let mut rows: Vec<Vec<String>> = Vec::new();
    for record in reader.records() {
        rows.push(record?.iter().map(|f| f.to_string()).collect());
    }
    Ok((header, rows))
}

} // verus!
