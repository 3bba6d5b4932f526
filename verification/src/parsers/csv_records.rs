//! Delimited records, read and written by the `csv` crate.

use crate::error::texts;
use csv::{ReaderBuilder, WriterBuilder};
use vstd::prelude::*;
use vstd::utf8::encode_utf8;

verus! {

/// What the reader objects to in a record.
#[derive(Debug)]
pub struct RecordFault {
    /// The 1-based line, where it is known.
    pub line: Option<u64>,
    /// What is wrong.
    pub message: String,
}

/// What a [`RecordFault`] is, mathematically.
pub struct RecordFaultModel {
    pub line: Option<u64>,
    pub message: Seq<char>,
}

impl View for RecordFault {
    type V = RecordFaultModel;

    open spec fn view(&self) -> RecordFaultModel {
        RecordFaultModel { line: self.line, message: self.message@ }
    }
}

/// The fields of a record, or why it cannot be read.
pub type RecordModel = Result<Seq<Seq<char>>, RecordFaultModel>;

/// The model of a record.
pub open spec fn record_model(record: Result<Vec<String>, RecordFault>) -> RecordModel {
    match record {
        Ok(fields) => Ok(texts(fields@)),
        Err(fault) => Err(fault@),
    }
}

/// The models of records.
pub open spec fn record_models(records: Seq<Result<Vec<String>, RecordFault>>) -> Seq<RecordModel> {
    Seq::new(records.len(), |i: int| record_model(records[i]))
}

/// Whether a character makes quotes necessary.
pub open spec fn is_csv_special(c: char, delimiter: char) -> bool {
    c == delimiter || c == '"' || c == '\r' || c == '\n'
}

/// A text with every quote doubled.
pub open spec fn quotes_doubled(s: Seq<char>) -> Seq<char>
    decreases s.len(),
{
    if s.len() == 0 {
        Seq::empty()
    } else if s.last() == '"' {
        quotes_doubled(s.drop_last()) + seq!['"', '"']
    } else {
        quotes_doubled(s.drop_last()).push(s.last())
    }
}

/// A field as it is written: in quotes where it holds a delimiter, a quote or
/// the end of a line.
pub open spec fn csv_field(s: Seq<char>, delimiter: char) -> Seq<char> {
    if exists|i: int| 0 <= i < s.len() && is_csv_special(#[trigger] s[i], delimiter) {
        seq!['"'] + quotes_doubled(s) + seq!['"']
    } else {
        s
    }
}

/// Fields as they are written, with the delimiter between them.
pub open spec fn csv_fields(fields: Seq<Seq<char>>, delimiter: char) -> Seq<char>
    decreases fields.len(),
{
    if fields.len() == 0 {
        Seq::empty()
    } else if fields.len() == 1 {
        csv_field(fields[0], delimiter)
    } else {
        csv_fields(fields.drop_last(), delimiter).push(delimiter) + csv_field(
            fields.last(),
            delimiter,
        )
    }
}

/// A record as it is written, its line ended. One that would be blank is a pair
/// of quotes.
pub open spec fn csv_record(fields: Seq<Seq<char>>, delimiter: char) -> Seq<char> {
    let line = csv_fields(fields, delimiter);
    (if line.len() == 0 {
        seq!['"', '"']
    } else {
        line
    }).push('\n')
}

/// Records as they are written, one behind the other.
pub open spec fn table_text(rows: Seq<Seq<Seq<char>>>, delimiter: char) -> Seq<char>
    decreases rows.len(),
{
    if rows.len() == 0 {
        Seq::empty()
    } else {
        table_text(rows.drop_last(), delimiter) + csv_record(rows.last(), delimiter)
    }
}

/// Whether records make a table: each has as many fields as the first, at least
/// one, and the first field does not start with a byte order mark.
pub open spec fn is_table(rows: Seq<Seq<Seq<char>>>) -> bool {
    forall|i: int|
        0 <= i < rows.len() ==> (#[trigger] rows[i]).len() == rows[0].len() && rows[i].len() > 0
            && (i == 0 && rows[0][0].len() > 0 ==> rows[0][0][0] != '\u{feff}')
}

/// Whether bytes are those of a table with commas or tabs between fields.
pub open spec fn spells_table(bytes: Seq<u8>, delimiter: u8, rows: Seq<Seq<Seq<char>>>) -> bool {
    &&& delimiter == 44 || delimiter == 9
    &&& is_table(rows)
    &&& bytes == encode_utf8(table_text(rows, delimiter as char))
}

/// The first record of a table; that of an empty one has no fields.
pub open spec fn first_record(rows: Seq<Seq<Seq<char>>>) -> Seq<Seq<char>> {
    if rows.len() > 0 {
        rows[0]
    } else {
        Seq::empty()
    }
}

/// The records of a table behind the first, each read without a fault.
pub open spec fn later_records(rows: Seq<Seq<Seq<char>>>) -> Seq<RecordModel> {
    Seq::new(
        if rows.len() > 0 {
            (rows.len() - 1) as nat
        } else {
            0
        },
        |i: int| Ok(rows[i + 1]),
    )
}

/// Whether a header is the first record of the table that the bytes are those
/// of, if they are those of one.
pub open spec fn heads_table(
    bytes: Seq<u8>,
    delimiter: u8,
    header: Result<Seq<Seq<char>>, Seq<char>>,
) -> bool {
    forall|rows: Seq<Seq<Seq<char>>>| #[trigger]
        spells_table(bytes, delimiter, rows) ==> header == Ok::<Seq<Seq<char>>, Seq<char>>(
            first_record(rows),
        )
}

/// Whether records are the later ones of the table that the bytes are those of,
/// if they are those of one.
pub open spec fn fills_table(bytes: Seq<u8>, delimiter: u8, records: Seq<RecordModel>) -> bool {
    forall|rows: Seq<Seq<Seq<char>>>| #[trigger]
        spells_table(bytes, delimiter, rows) ==> records == later_records(rows)
}

/// The model of a header.
pub open spec fn header_model(header: Result<Vec<String>, String>) -> Result<
    Seq<Seq<char>>,
    Seq<char>,
> {
    match header {
        Ok(fields) => Ok(texts(fields@)),
        Err(message) => Err(message@),
    }
}

/// The header that `csv::Reader::headers` finds, or its objection.
pub uninterp spec fn csv_header(bytes: Seq<u8>, delimiter: u8) -> Result<
    Seq<Seq<char>>,
    Seq<char>,
>;

/// `csv::Reader::headers`. Of a table that was written record by record it is
/// the first record; otherwise the result, a function of the bytes and the
/// delimiter, is only named here.
#[verifier::external_body]
pub(crate) fn read_header(bytes: &[u8], delimiter: u8) -> (r: Result<Vec<String>, String>)
    ensures
        csv_header(bytes@, delimiter) == header_model(r),
        heads_table(bytes@, delimiter, header_model(r)),
{
    let mut reader = ReaderBuilder::new().has_headers(true).delimiter(delimiter).from_reader(bytes);
    let header = reader.headers().map_err(|e| e.to_string())?;
    Ok(header.iter().map(str::to_owned).collect())
}

/// The records behind the header that `csv::Reader::records` finds.
pub uninterp spec fn csv_records(bytes: Seq<u8>, delimiter: u8) -> Seq<RecordModel>;

/// `csv::Reader::records`, each record's fields, or the line and the words of
/// the error it gives. Of a table that was written record by record they are
/// the records behind the first; otherwise the result, a function of the bytes
/// and the delimiter, is only named here.
#[verifier::external_body]
pub(crate) fn read_records(bytes: &[u8], delimiter: u8) -> (r: Vec<
    Result<Vec<String>, RecordFault>,
>)
    ensures
        record_models(r@) == csv_records(bytes@, delimiter),
        fills_table(bytes@, delimiter, record_models(r@)),
{
    let mut reader = ReaderBuilder::new().has_headers(true).delimiter(delimiter).from_reader(bytes);
    let plain = |e: csv::Error| RecordFault { line: e.position().map(|p| p.line()), message: e.to_string() };
    reader.records().map(|r| r.map(|s| s.iter().map(str::to_owned).collect()).map_err(plain)).collect()
}

/// `csv::Writer::write_record` on a writer over a `Vec` that has written
/// nothing yet: the fields are quoted where that is necessary, quotes in them
/// are doubled, and the record ends in a newline.
#[verifier::external_body]
pub(crate) fn write_record(fields: &Vec<String>, delimiter: u8) -> (r: Vec<u8>)
    requires
        delimiter < 128,
    ensures
        r@ == encode_utf8(csv_record(texts(fields@), delimiter as char)),
{
    let mut writer = WriterBuilder::new().delimiter(delimiter).from_writer(Vec::new());
    let _ = writer.write_record(fields);
    writer.into_inner().unwrap_or_default()
}

} // verus!
