//! CSV and TSV: records of text under a header.
//!
//! A document is an array of objects, one per record. Every cell is a string;
//! nothing is made a number or a truth value.

use crate::bytes::append_bytes;
use crate::display::{quote_list, quoted_list};
use crate::document::{bare, DocModel, Document};
use crate::error::{
    format_fault, texts, unplaced_parse, unplaced_parse_error, Error, Fault,
};
use crate::format::{emitted, extension_list, Emission, Format};
use crate::format_tag::FormatTag;
use crate::numbers::{decimal, index_text};
use crate::parsers::csv_records::{
    csv_header, csv_record, csv_records, first_record, later_records, read_header, read_records,
    record_model, record_models, spells_table, table_text, write_record, RecordFault,
    RecordFaultModel, RecordModel,
};
use crate::parsers::json_spelling::lemma_encode_two;
use crate::position::wrapped;
use crate::text::{joined, same_text};
use crate::value::{
    inserted, lemma_array_view, lemma_key_index_is, lemma_object_view, lookup, scalar_text_of, trees, type_label_of,
    Tree, Value, ValueMap,
};
use crate::write_options::WriteOptions;
use vstd::prelude::*;
use vstd::utf8::encode_utf8;

verus! {

/// CSV format implementation (`,` between fields).
#[derive(Debug, Clone, Copy)]
pub struct Csv;

/// TSV format implementation (a tab between fields).
#[derive(Debug, Clone, Copy)]
pub struct Tsv;

/// The two kinds of delimited records.
#[derive(Debug, Clone, Copy, PartialEq, Eq, Structural)]
pub enum Dialect {
    /// With commas.
    Csv,
    /// With tabs.
    Tsv,
}

impl Dialect {
    /// What stands between fields.
    pub open spec fn mark(self) -> u8 {
        match self {
            Dialect::Csv => 44,
            Dialect::Tsv => 9,
        }
    }

    /// The name of the format.
    pub open spec fn label(self) -> Seq<char> {
        match self {
            Dialect::Csv => "csv"@,
            Dialect::Tsv => "tsv"@,
        }
    }

    /// The name of the format in capitals.
    pub open spec fn capitals(self) -> Seq<char> {
        match self {
            Dialect::Csv => "CSV"@,
            Dialect::Tsv => "TSV"@,
        }
    }

    /// What stands between fields.
    pub fn delimiter(self) -> (r: u8)
        ensures
            r == self.mark(),
    {
        match self {
            Dialect::Csv => 44,
            Dialect::Tsv => 9,
        }
    }

    /// The name of the format.
    pub fn format_name(self) -> (r: &'static str)
        ensures
            r@ == self.label(),
    {
        match self {
            Dialect::Csv => "csv",
            Dialect::Tsv => "tsv",
        }
    }

    /// The name of the format in capitals.
    pub fn upper(self) -> (r: &'static str)
        ensures
            r@ == self.capitals(),
    {
        match self {
            Dialect::Csv => "CSV",
            Dialect::Tsv => "TSV",
        }
    }
}

// ---------------------------------------------------------------------------
// Reading
// ---------------------------------------------------------------------------

/// The key of column `i`: its header, or its number where the header is
/// shorter.
pub open spec fn column_key(headers: Seq<Seq<char>>, i: int) -> Seq<char> {
    if i < headers.len() {
        headers[i]
    } else {
        "column_"@ + decimal(i as nat)
    }
}

/// The first `k` cells of a record under the header.
pub open spec fn row_entries(headers: Seq<Seq<char>>, fields: Seq<Seq<char>>, k: int) -> Seq<
    (Seq<char>, Tree),
>
    decreases k,
{
    if k <= 0 {
        Seq::empty()
    } else {
        inserted(
            row_entries(headers, fields, k - 1),
            column_key(headers, k - 1),
            Tree::String(fields[k - 1]),
        )
    }
}

/// The fault of record `idx`.
pub open spec fn record_fault(dialect: Dialect, idx: nat, f: RecordFaultModel) -> Fault {
    Fault::Parse {
        file: None,
        line: match f.line {
            Some(line) => wrapped(line as nat),
            None => 0,
        },
        col: 0,
        start: 0,
        end: 0,
        snippet: Seq::empty(),
        message: dialect.capitals() + " record "@ + decimal(idx) + ": "@ + f.message,
    }
}

/// The objects of the first `k` records, or the fault of the first that cannot
/// be read.
pub open spec fn rows_read(
    dialect: Dialect,
    headers: Seq<Seq<char>>,
    records: Seq<RecordModel>,
    k: int,
) -> Result<Seq<Tree>, Fault>
    decreases k,
{
    if k <= 0 {
        Ok(Seq::empty())
    } else {
        match rows_read(dialect, headers, records, k - 1) {
            Err(f) => Err(f),
            Ok(before) => match records[k - 1] {
                Err(f) => Err(record_fault(dialect, (k - 1) as nat, f)),
                Ok(fields) => Ok(
                    before.push(Tree::Object(row_entries(headers, fields, fields.len() as int))),
                ),
            },
        }
    }
}

/// The value of delimited bytes.
pub open spec fn csv_parsed(bytes: Seq<u8>, dialect: Dialect) -> Result<Tree, Fault> {
    match csv_header(bytes, dialect.mark()) {
        Err(message) => Err(
            unplaced_parse("failed to read "@ + dialect.capitals() + " header: "@ + message),
        ),
        Ok(headers) => {
            let records = csv_records(bytes, dialect.mark());
            match rows_read(dialect, headers, records, records.len() as int) {
                Ok(rows) => Ok(Tree::Array(rows)),
                Err(f) => Err(f),
            }
        },
    }
}

/// The object of a record under the header.
pub fn row_of(headers: &Vec<String>, fields: &Vec<String>) -> (r: ValueMap)
    ensures
        r@ == row_entries(texts(headers@), texts(fields@), fields@.len() as int),
{
    let ghost names = texts(headers@);
    let ghost cells = texts(fields@);
    let mut row: ValueMap = ValueMap::new();
    let mut i: usize = 0;
    while i < fields.len()
        invariant
            i <= fields@.len(),
            names == texts(headers@),
            cells == texts(fields@),
            row@ == row_entries(names, cells, i as int),
        decreases fields@.len() - i,
    {
        assert(cells[i as int] == fields@[i as int]@);
        let key: String = if i < headers.len() {
            assert(names[i as int] == headers@[i as int]@);
            headers[i].clone()
        } else {
            joined("column_", index_text(i).as_str())
        };
        row.insert(key, Value::String(fields[i].clone()));
        i += 1;
    }
    row
}

fn record_error(dialect: Dialect, idx: usize, fault: &RecordFault) -> (r: Error)
    ensures
        r@ == record_fault(dialect, idx as nat, fault@),
{
    let line: u32 = match fault.line {
        Some(line) => (line % 0x1_0000_0000) as u32,
        None => 0,
    };
    let mut message: String = joined(dialect.upper(), " record ");
    message.push_str(index_text(idx).as_str());
    message.push_str(": ");
    message.push_str(fault.message.as_str());
    let empty: String = String::new();
    assert(empty@ =~= Seq::<char>::empty());
    Error::Parse { file: None, line, col: 0, span: 0..0, snippet: empty, message }
}

proof fn lemma_reading_fails(
    dialect: Dialect,
    headers: Seq<Seq<char>>,
    records: Seq<RecordModel>,
    k: int,
    n: int,
)
    requires
        0 <= k <= n,
        rows_read(dialect, headers, records, k) is Err,
    ensures
        rows_read(dialect, headers, records, n) == rows_read(dialect, headers, records, k),
    decreases n - k,
{
    if k < n {
        lemma_reading_fails(dialect, headers, records, k, n - 1);
    }
}

/// The objects of records under the header.
pub fn rows_of(
    dialect: Dialect,
    headers: &Vec<String>,
    records: &Vec<Result<Vec<String>, RecordFault>>,
) -> (r: Result<Vec<Value>, Error>)
    ensures
        match (
            r,
            rows_read(
                dialect,
                texts(headers@),
                record_models(records@),
                records@.len() as int,
            ),
        ) {
            (Ok(rows), Ok(m)) => trees(rows@) == m,
            (Err(e), Err(f)) => e@ == f,
            _ => false,
        },
{
    let ghost names = texts(headers@);
    let ghost all = record_models(records@);
    let mut rows: Vec<Value> = Vec::new();
    assert(trees(rows@) =~= Seq::<Tree>::empty());
    let mut i: usize = 0;
    while i < records.len()
        invariant
            i <= records@.len() == all.len(),
            names == texts(headers@),
            all == record_models(records@),
            rows_read(dialect, names, all, i as int) == Ok::<_, Fault>(trees(rows@)),
        decreases records@.len() - i,
    {
        assert(all[i as int] == record_model(records@[i as int]));
        let ghost before = trees(rows@);
        let ghost next = rows_read(dialect, names, all, i + 1);
        match &records[i] {
            Ok(fields) => {
                let row: ValueMap = row_of(headers, fields);
                let ghost entries = row@;
                proof {
                    lemma_object_view(row);
                }
                rows.push(Value::Object(row));
                assert(trees(rows@) =~= before.push(Tree::Object(entries)));
            },
            Err(fault) => {
                proof {
                    lemma_reading_fails(dialect, names, all, i + 1, all.len() as int);
                }
                return Err(record_error(dialect, i, fault));
            },
        }
        i += 1;
    }
    Ok(rows)
}

// ---------------------------------------------------------------------------
// Writing
// ---------------------------------------------------------------------------

/// The cell of a row under `header`; nothing where the row has no such key.
pub open spec fn cell_of(
    dialect: Dialect,
    idx: nat,
    entries: Seq<(Seq<char>, Tree)>,
    header: Seq<char>,
) -> Result<Seq<char>, Fault> {
    match lookup(entries, header) {
        None => Ok(Seq::empty()),
        Some(t) => match scalar_text_of(t) {
            Some(text) => Ok(text),
            None => Err(
                format_fault(
                    dialect.label(),
                    "row "@ + decimal(idx) + " key '"@ + header + "': nested "@ + type_label_of(t)
                        + " cannot be serialized to "@ + dialect.label(),
                ),
            ),
        },
    }
}

/// The first `k` cells of a row.
pub open spec fn cells_of(
    dialect: Dialect,
    idx: nat,
    entries: Seq<(Seq<char>, Tree)>,
    headers: Seq<Seq<char>>,
    k: int,
) -> Result<Seq<Seq<char>>, Fault>
    decreases k,
{
    if k <= 0 {
        Ok(Seq::empty())
    } else {
        match cells_of(dialect, idx, entries, headers, k - 1) {
            Err(f) => Err(f),
            Ok(before) => match cell_of(dialect, idx, entries, headers[k - 1]) {
                Ok(cell) => Ok(before.push(cell)),
                Err(f) => Err(f),
            },
        }
    }
}

/// The first key from `k` on that the header does not hold.
pub open spec fn stray_key(
    entries: Seq<(Seq<char>, Tree)>,
    headers: Seq<Seq<char>>,
    k: int,
) -> Option<Seq<char>>
    decreases entries.len() - k,
{
    if !(0 <= k < entries.len()) {
        None
    } else if !headers.contains(entries[k].0) {
        Some(entries[k].0)
    } else {
        stray_key(entries, headers, k + 1)
    }
}

/// The cells of row `idx`, or why it cannot be written.
pub open spec fn row_cells(
    dialect: Dialect,
    idx: nat,
    row: Tree,
    headers: Seq<Seq<char>>,
) -> Result<Seq<Seq<char>>, Fault> {
    match row {
        Tree::Object(entries) => match cells_of(
            dialect,
            idx,
            entries,
            headers,
            headers.len() as int,
        ) {
            Err(f) => Err(f),
            Ok(cells) => match stray_key(entries, headers, 0) {
                Some(key) => Err(
                    format_fault(
                        dialect.label(),
                        "row "@ + decimal(idx) + " has key '"@ + key
                            + "' not present in header "@ + quoted_list(headers),
                    ),
                ),
                None => Ok(cells),
            },
        },
        _ => Err(
            format_fault(
                dialect.label(),
                "expected array of objects; row "@ + decimal(idx) + " is "@ + type_label_of(row),
            ),
        ),
    }
}

/// A record in the bytes of a dialect.
pub open spec fn record_bytes(dialect: Dialect, fields: Seq<Seq<char>>) -> Seq<u8> {
    encode_utf8(csv_record(fields, dialect.mark() as char))
}

/// What is written of the header and the first `k` rows.
pub open spec fn rows_written(
    dialect: Dialect,
    items: Seq<Tree>,
    headers: Seq<Seq<char>>,
    k: int,
) -> Emission
    decreases k,
{
    if k <= 0 {
        (record_bytes(dialect, headers), Ok(()))
    } else {
        let before = rows_written(dialect, items, headers, k - 1);
        if before.1 is Err {
            before
        } else {
            match row_cells(dialect, (k - 1) as nat, items[k - 1], headers) {
                Ok(cells) => (before.0 + record_bytes(dialect, cells), Ok(())),
                Err(f) => (before.0, Err(f)),
            }
        }
    }
}

/// The keys of entries.
pub open spec fn keys_of(entries: Seq<(Seq<char>, Tree)>) -> Seq<Seq<char>> {
    Seq::new(entries.len(), |i: int| entries[i].0)
}

/// What the writer makes of a value. The header holds the keys of the first
/// object.
pub open spec fn csv_written(t: Tree, dialect: Dialect) -> Emission {
    match t {
        Tree::Array(items) => if items.len() == 0 {
            (Seq::empty(), Ok(()))
        } else {
            match items[0] {
                Tree::Object(first) => rows_written(
                    dialect,
                    items,
                    keys_of(first),
                    items.len() as int,
                ),
                _ => (
                    Seq::empty(),
                    Err(
                        format_fault(
                            dialect.label(),
                            "expected array of objects at top level; row 0 is "@ + type_label_of(
                                items[0],
                            ),
                        ),
                    ),
                ),
            }
        },
        _ => (
            Seq::empty(),
            Err(
                format_fault(
                    dialect.label(),
                    "expected array of objects at top level, got "@ + type_label_of(t),
                ),
            ),
        ),
    }
}

fn dialect_error(dialect: Dialect, message: String) -> (r: Error)
    ensures
        r@ == format_fault(dialect.label(), message@),
{
    Error::Format { format: dialect.format_name(), message }
}

fn find_cell(dialect: Dialect, idx: usize, map: &ValueMap, header: &str) -> (r: Result<
    String,
    Error,
>)
    ensures
        match (r, cell_of(dialect, idx as nat, map@, header@)) {
            (Ok(cell), Ok(m)) => cell@ == m,
            (Err(e), Err(f)) => e@ == f,
            _ => false,
        },
{
    match map.get(header) {
        None => {
            let empty: String = String::new();
            assert(empty@ =~= Seq::<char>::empty());
            Ok(empty)
        },
        Some(v) => match v.scalar_text() {
            Some(text) => Ok(text),
            None => {
                let mut message: String = joined("row ", index_text(idx).as_str());
                message.push_str(" key '");
                message.push_str(header);
                message.push_str("': nested ");
                message.push_str(v.type_label());
                message.push_str(" cannot be serialized to ");
                message.push_str(dialect.format_name());
                Err(dialect_error(dialect, message))
            },
        },
    }
}

proof fn lemma_cells_fail(
    dialect: Dialect,
    idx: nat,
    entries: Seq<(Seq<char>, Tree)>,
    headers: Seq<Seq<char>>,
    k: int,
    n: int,
)
    requires
        0 <= k <= n,
        cells_of(dialect, idx, entries, headers, k) is Err,
    ensures
        cells_of(dialect, idx, entries, headers, n) == cells_of(dialect, idx, entries, headers, k),
    decreases n - k,
{
    if k < n {
        lemma_cells_fail(dialect, idx, entries, headers, k, n - 1);
    }
}

fn find_cells(dialect: Dialect, idx: usize, map: &ValueMap, headers: &Vec<String>) -> (r: Result<
    Vec<String>,
    Error,
>)
    ensures
        match (
            r,
            cells_of(dialect, idx as nat, map@, texts(headers@), headers@.len() as int),
        ) {
            (Ok(cells), Ok(m)) => texts(cells@) == m,
            (Err(e), Err(f)) => e@ == f,
            _ => false,
        },
{
    let ghost names = texts(headers@);
    let mut cells: Vec<String> = Vec::new();
    assert(texts(cells@) =~= Seq::<Seq<char>>::empty());
    let mut i: usize = 0;
    while i < headers.len()
        invariant
            i <= headers@.len(),
            names == texts(headers@),
            cells_of(dialect, idx as nat, map@, names, i as int) == Ok::<_, Fault>(texts(cells@)),
        decreases headers@.len() - i,
    {
        assert(names[i as int] == headers@[i as int]@);
        let ghost before = texts(cells@);
        let ghost next = cells_of(dialect, idx as nat, map@, names, i + 1);
        match find_cell(dialect, idx, map, headers[i].as_str()) {
            Ok(cell) => {
                let ghost shown = cell@;
                cells.push(cell);
                assert(texts(cells@) =~= before.push(shown));
            },
            Err(e) => {
                proof {
                    lemma_cells_fail(dialect, idx as nat, map@, names, i + 1, names.len() as int);
                }
                return Err(e);
            },
        }
        i += 1;
    }
    Ok(cells)
}

fn lists_header(headers: &Vec<String>, key: &str) -> (r: bool)
    ensures
        r == texts(headers@).contains(key@),
{
    let ghost names = texts(headers@);
    let mut i: usize = 0;
    while i < headers.len()
        invariant
            i <= headers@.len(),
            names == texts(headers@),
            forall|k: int| 0 <= k < i ==> #[trigger] names[k] != key@,
        decreases headers@.len() - i,
    {
        assert(names[i as int] == headers@[i as int]@);
        if same_text(headers[i].as_str(), key) {
            return true;
        }
        i += 1;
    }
    false
}

fn find_stray_key<'a>(map: &'a ValueMap, headers: &Vec<String>) -> (r: Option<&'a str>)
    ensures
        match r {
            Some(key) => stray_key(map@, texts(headers@), 0) == Some(key@),
            None => stray_key(map@, texts(headers@), 0) is None,
        },
{
    let mut i: usize = 0;
    while i < map.entries.len()
        invariant
            i <= map.entries@.len(),
            stray_key(map@, texts(headers@), i as int) == stray_key(map@, texts(headers@), 0),
        decreases map.entries@.len() - i,
    {
        assert(map@[i as int].0 == map.entries@[i as int].0@);
        if !lists_header(headers, map.entries[i].0.as_str()) {
            return Some(map.entries[i].0.as_str());
        }
        i += 1;
    }
    None
}

fn find_row_cells(dialect: Dialect, idx: usize, row: &Value, headers: &Vec<String>) -> (r: Result<
    Vec<String>,
    Error,
>)
    ensures
        match (r, row_cells(dialect, idx as nat, row@, texts(headers@))) {
            (Ok(cells), Ok(m)) => texts(cells@) == m,
            (Err(e), Err(f)) => e@ == f,
            _ => false,
        },
{
    match row {
        Value::Object(map) => {
            proof {
                lemma_object_view(*map);
            }
            let cells: Vec<String> = match find_cells(dialect, idx, map, headers) {
                Ok(cells) => cells,
                Err(e) => {
                    return Err(e);
                },
            };
            match find_stray_key(map, headers) {
                Some(key) => {
                    let mut message: String = joined("row ", index_text(idx).as_str());
                    message.push_str(" has key '");
                    message.push_str(key);
                    message.push_str("' not present in header ");
                    message.push_str(quote_list(headers).as_str());
                    Err(dialect_error(dialect, message))
                },
                None => Ok(cells),
            }
        },
        _ => {
            let mut message: String = joined(
                "expected array of objects; row ",
                index_text(idx).as_str(),
            );
            message.push_str(" is ");
            message.push_str(row.type_label());
            Err(dialect_error(dialect, message))
        },
    }
}

proof fn lemma_rows_fail(
    dialect: Dialect,
    items: Seq<Tree>,
    headers: Seq<Seq<char>>,
    k: int,
    n: int,
)
    requires
        0 <= k <= n,
        rows_written(dialect, items, headers, k).1 is Err,
    ensures
        rows_written(dialect, items, headers, n) == rows_written(dialect, items, headers, k),
    decreases n - k,
{
    if k < n {
        lemma_rows_fail(dialect, items, headers, k, n - 1);
    }
}

fn write_rows(dialect: Dialect, items: &Vec<Value>, headers: &Vec<String>, w: &mut Vec<u8>) -> (r:
    Result<(), Error>)
    ensures
        emitted(
            r,
            rows_written(dialect, trees(items@), texts(headers@), items@.len() as int),
            old(w)@,
            final(w)@,
        ),
{
    let ghost all = trees(items@);
    let ghost names = texts(headers@);
    append_bytes(w, write_record(headers, dialect.delimiter()).as_slice());
    let mut i: usize = 0;
    while i < items.len()
        invariant
            i <= items@.len() == all.len(),
            all == trees(items@),
            names == texts(headers@),
            rows_written(dialect, all, names, i as int).1 is Ok,
            w@ == old(w)@ + rows_written(dialect, all, names, i as int).0,
        decreases items@.len() - i,
    {
        assert(all[i as int] == items@[i as int]@);
        let ghost next = rows_written(dialect, all, names, i + 1);
        match find_row_cells(dialect, i, &items[i], headers) {
            Ok(cells) => {
                append_bytes(w, write_record(&cells, dialect.delimiter()).as_slice());
                assert(w@ =~= old(w)@ + next.0);
            },
            Err(e) => {
                proof {
                    lemma_rows_fail(dialect, all, names, i + 1, all.len() as int);
                }
                return Err(e);
            },
        }
        i += 1;
    }
    Ok(())
}

fn copy_keys(map: &ValueMap) -> (r: Vec<String>)
    ensures
        texts(r@) == keys_of(map@),
{
    let mut out: Vec<String> = Vec::new();
    let mut i: usize = 0;
    while i < map.entries.len()
        invariant
            i <= map.entries@.len(),
            out@.len() == i,
            forall|k: int| 0 <= k < i ==> (#[trigger] out@[k])@ == map.entries@[k].0@,
        decreases map.entries@.len() - i,
    {
        out.push(map.entries[i].0.clone());
        i += 1;
    }
    assert(texts(out@) =~= keys_of(map@));
    out
}

/// Appends a value as delimited records.
pub fn write_with_delimiter(v: &Value, w: &mut Vec<u8>, dialect: Dialect) -> (r: Result<(), Error>)
    ensures
        emitted(r, csv_written(v@, dialect), old(w)@, final(w)@),
{
    assert(w@ + Seq::<u8>::empty() =~= w@);
    let items: &Vec<Value> = match v {
        Value::Array(items) => {
            proof {
                lemma_array_view(*items);
            }
            items
        },
        _ => {
            return Err(
                dialect_error(
                    dialect,
                    joined("expected array of objects at top level, got ", v.type_label()),
                ),
            );
        },
    };
    if items.len() == 0 {
        return Ok(());
    }
    assert(trees(items@)[0] == items@[0]@);
    match &items[0] {
        Value::Object(first) => {
            proof {
                lemma_object_view(*first);
            }
            let headers: Vec<String> = copy_keys(first);
            write_rows(dialect, items, &headers, w)
        },
        _ => Err(
            dialect_error(
                dialect,
                joined(
                    "expected array of objects at top level; row 0 is ",
                    items[0].type_label(),
                ),
            ),
        ),
    }
}

// ---------------------------------------------------------------------------
// Reading what was written
// ---------------------------------------------------------------------------

/// Whether a row is an object with a string under each of these keys.
pub open spec fn is_row(row: Tree, headers: Seq<Seq<char>>) -> bool {
    match row {
        Tree::Object(entries) => keys_of(entries) == headers && forall|i: int|
            0 <= i < entries.len() ==> (#[trigger] entries[i]).1 is String,
        _ => false,
    }
}

/// The keys of the first row.
pub open spec fn headers_of(items: Seq<Tree>) -> Seq<Seq<char>> {
    if items.len() > 0 {
        keys_of(items[0]->Object_0)
    } else {
        Seq::empty()
    }
}

/// Whether rows are objects with a string under each of the same distinct keys,
/// in the same order. There is at least one key, and the first does not start
/// with a byte order mark.
pub open spec fn is_regular(items: Seq<Tree>) -> bool {
    let headers = headers_of(items);
    &&& forall|i: int| 0 <= i < items.len() ==> is_row(#[trigger] items[i], headers)
    &&& items.len() > 0 ==> headers.len() > 0 && (headers[0].len() > 0 ==> headers[0][0]
        != '\u{feff}')
    &&& forall|i: int, j: int| 0 <= i < j < headers.len() ==> headers[i] != headers[j]
}

/// Whether bytes are those of regular rows.
pub open spec fn spells_items(bytes: Seq<u8>, dialect: Dialect, items: Seq<Tree>) -> bool {
    is_regular(items) && bytes == csv_written(Tree::Array(items), dialect).0
}

/// The cells of a row.
spec fn row_texts(row: Tree) -> Seq<Seq<char>> {
    let entries = row->Object_0;
    Seq::new(entries.len(), |i: int| entries[i].1->String_0)
}

/// The header and the cells of all rows.
spec fn all_rows(items: Seq<Tree>) -> Seq<Seq<Seq<char>>> {
    if items.len() == 0 {
        Seq::empty()
    } else {
        Seq::new(
            items.len() + 1,
            |i: int|
                if i == 0 {
                    headers_of(items)
                } else {
                    row_texts(items[i - 1])
                },
        )
    }
}

proof fn lemma_row_keys(row: Tree, headers: Seq<Seq<char>>, i: int)
    requires
        is_row(row, headers),
        0 <= i < headers.len(),
    ensures
        row is Object,
        row->Object_0.len() == headers.len(),
        row->Object_0[i].0 == headers[i],
        row->Object_0[i].1 == Tree::String(row_texts(row)[i]),
        row_texts(row).len() == headers.len(),
{
    let entries = row->Object_0;
    assert(keys_of(entries)[i] == entries[i].0);
    assert(entries[i].1 is String);
}

proof fn lemma_cells(
    dialect: Dialect,
    idx: nat,
    row: Tree,
    headers: Seq<Seq<char>>,
    k: int,
)
    requires
        is_row(row, headers),
        forall|i: int, j: int| 0 <= i < j < headers.len() ==> headers[i] != headers[j],
        0 <= k <= headers.len(),
    ensures
        cells_of(dialect, idx, row->Object_0, headers, k) == Ok::<_, Fault>(
            row_texts(row).subrange(0, k),
        ),
    decreases k,
{
    let entries = row->Object_0;
    if k == 0 {
        assert(row_texts(row).subrange(0, 0) =~= Seq::<Seq<char>>::empty());
    } else {
        lemma_cells(dialect, idx, row, headers, k - 1);
        lemma_row_keys(row, headers, k - 1);
        assert forall|i: int| 0 <= i < k - 1 implies (#[trigger] entries[i]).0 != headers[k - 1] by {
            lemma_row_keys(row, headers, i);
        }
        lemma_key_index_is(entries, headers[k - 1], k - 1);
        assert(row_texts(row).subrange(0, k) =~= row_texts(row).subrange(0, k - 1).push(
            row_texts(row)[k - 1],
        ));
    }
}

proof fn lemma_no_stray(entries: Seq<(Seq<char>, Tree)>, headers: Seq<Seq<char>>, k: int)
    requires
        keys_of(entries) == headers,
        0 <= k <= entries.len(),
    ensures
        stray_key(entries, headers, k) is None,
    decreases entries.len() - k,
{
    if k < entries.len() {
        assert(headers[k] == entries[k].0);
        lemma_no_stray(entries, headers, k + 1);
    }
}

proof fn lemma_rows_written(dialect: Dialect, items: Seq<Tree>, k: int)
    requires
        is_regular(items),
        items.len() > 0,
        0 <= k <= items.len(),
    ensures
        rows_written(dialect, items, headers_of(items), k) == (
            encode_utf8(
                table_text(all_rows(items).subrange(0, k + 1), dialect.mark() as char),
            ),
            Ok::<(), Fault>(()),
        ),
    decreases k,
{
    let rows = all_rows(items);
    let now = rows.subrange(0, k + 1);
    let before = rows.subrange(0, k);
    let c = dialect.mark() as char;
    assert(now.drop_last() =~= before);
    assert(now.last() == rows[k]);
    lemma_encode_two(table_text(before, c), csv_record(rows[k], c));
    if k == 0 {
        assert(table_text(before, c) =~= Seq::<char>::empty());
        assert(Seq::<char>::empty() + csv_record(rows[0], c) =~= csv_record(rows[0], c));
        assert(rows[0] == headers_of(items));
    } else {
        let row = items[k - 1];
        let headers = headers_of(items);
        lemma_rows_written(dialect, items, k - 1);
        assert(is_row(row, headers));
        lemma_cells(dialect, (k - 1) as nat, row, headers, headers.len() as int);
        lemma_no_stray(row->Object_0, headers, 0);
        assert(row_texts(row).subrange(0, headers.len() as int) =~= row_texts(row)) by {
            lemma_row_keys(row, headers, 0);
        }
        assert(rows[k] == row_texts(row));
    }
}

/// Regular rows are written to the end, as the table of their keys and cells.
proof fn lemma_table_written(dialect: Dialect, items: Seq<Tree>)
    requires
        is_regular(items),
    ensures
        csv_written(Tree::Array(items), dialect).1 is Ok,
        spells_table(
            csv_written(Tree::Array(items), dialect).0,
            dialect.mark(),
            all_rows(items),
        ),
{
    let rows = all_rows(items);
    if items.len() == 0 {
        assert(encode_utf8(Seq::<char>::empty()) =~= Seq::<u8>::empty());
    } else {
        assert(is_row(items[0], headers_of(items)));
        lemma_rows_written(dialect, items, items.len() as int);
        assert(rows.subrange(0, items.len() as int + 1) =~= rows);
        assert forall|i: int| 0 <= i < rows.len() implies (#[trigger] rows[i]).len()
            == rows[0].len() && rows[i].len() > 0 && (i == 0 && rows[0][0].len() > 0
            ==> rows[0][0][0] != '\u{feff}') by {
            if i > 0 {
                assert(is_row(items[i - 1], headers_of(items)));
                lemma_row_keys(items[i - 1], headers_of(items), 0);
            }
        }
    }
}

proof fn lemma_row_entries(row: Tree, headers: Seq<Seq<char>>, k: int)
    requires
        is_row(row, headers),
        forall|i: int, j: int| 0 <= i < j < headers.len() ==> headers[i] != headers[j],
        0 <= k <= headers.len(),
    ensures
        row_entries(headers, row_texts(row), k) == row->Object_0.subrange(0, k),
    decreases k,
{
    let entries = row->Object_0;
    if k == 0 {
        assert(entries.subrange(0, 0) =~= Seq::<(Seq<char>, Tree)>::empty());
    } else {
        lemma_row_entries(row, headers, k - 1);
        lemma_row_keys(row, headers, k - 1);
        let before = entries.subrange(0, k - 1);
        let key = headers[k - 1];
        assert forall|i: int| 0 <= i < before.len() implies (#[trigger] before[i]).0 != key by {
            lemma_row_keys(row, headers, i);
        }
        lemma_key_index_is(before, key, k - 1);
        assert(entries.subrange(0, k) =~= before.push(entries[k - 1]));
    }
}

proof fn lemma_rows_read(dialect: Dialect, items: Seq<Tree>, k: int)
    requires
        is_regular(items),
        0 <= k <= items.len(),
    ensures
        rows_read(dialect, headers_of(items), later_records(all_rows(items)), k) == Ok::<_, Fault>(
            items.subrange(0, k),
        ),
    decreases k,
{
    if k == 0 {
        assert(items.subrange(0, 0) =~= Seq::<Tree>::empty());
    } else {
        let row = items[k - 1];
        let headers = headers_of(items);
        lemma_rows_read(dialect, items, k - 1);
        assert(is_row(row, headers));
        lemma_row_keys(row, headers, 0);
        lemma_row_entries(row, headers, headers.len() as int);
        let entries = row->Object_0;
        assert(entries.subrange(0, entries.len() as int) =~= entries);
        assert(later_records(all_rows(items))[k - 1] == Ok::<_, RecordFaultModel>(row_texts(row)));
        assert(items.subrange(0, k) =~= items.subrange(0, k - 1).push(row));
    }
}

proof fn lemma_items_read(bytes: Seq<u8>, dialect: Dialect)
    ensures
        forall|items: Seq<Tree>| #[trigger]
            spells_items(bytes, dialect, items) ==> spells_table(
                bytes,
                dialect.mark(),
                all_rows(items),
            ) && rows_read(
                dialect,
                first_record(all_rows(items)),
                later_records(all_rows(items)),
                later_records(all_rows(items)).len() as int,
            ) == Ok::<_, Fault>(items),
{
    assert forall|items: Seq<Tree>| #[trigger] spells_items(bytes, dialect, items) implies
        spells_table(bytes, dialect.mark(), all_rows(items)) && rows_read(
        dialect,
        first_record(all_rows(items)),
        later_records(all_rows(items)),
        later_records(all_rows(items)).len() as int,
    ) == Ok::<_, Fault>(items) by {
        lemma_table_written(dialect, items);
        lemma_rows_read(dialect, items, items.len() as int);
        assert(items.subrange(0, items.len() as int) =~= items);
        assert(first_record(all_rows(items)) =~= headers_of(items));
    }
}

/// Regular rows are written to the end. Parsing what is written gives them back.
pub proof fn law_regular_rows_are_written(dialect: Dialect, items: Seq<Tree>)
    requires
        is_regular(items),
    ensures
        csv_written(Tree::Array(items), dialect).1 is Ok,
        spells_items(csv_written(Tree::Array(items), dialect).0, dialect, items),
{
    lemma_table_written(dialect, items);
}

/// Parses delimited bytes. Those that were written of a table of strings give
/// that table back.
pub fn parse_with_delimiter(bytes: &[u8], dialect: Dialect) -> (r: Result<Value, Error>)
    ensures
        match (r, csv_parsed(bytes@, dialect)) {
            (Ok(v), Ok(m)) => v@ == m,
            (Err(e), Err(f)) => e@ == f,
            _ => false,
        },
        forall|items: Seq<Tree>| #[trigger]
            spells_items(bytes@, dialect, items) ==> (r matches Ok(v) && v@ == Tree::Array(items)),
{
    proof {
        lemma_items_read(bytes@, dialect);
    }
    match read_header(bytes, dialect.delimiter()) {
        Err(text) => {
            let mut message: String = joined("failed to read ", dialect.upper());
            message.push_str(" header: ");
            message.push_str(text.as_str());
            Err(unplaced_parse_error(message))
        },
        Ok(headers) => {
            let records: Vec<Result<Vec<String>, RecordFault>> = read_records(
                bytes,
                dialect.delimiter(),
            );
            match rows_of(dialect, &headers, &records) {
                Ok(rows) => {
                    proof {
                        lemma_array_view(rows);
                    }
                    Ok(Value::Array(rows))
                },
                Err(e) => Err(e),
            }
        },
    }
}

impl Format for Csv {
    open spec fn tag(&self) -> FormatTag {
        FormatTag::Csv
    }

    open spec fn parses(&self, bytes: Seq<u8>) -> bool {
        true
    }

    open spec fn parse_model(&self, bytes: Seq<u8>) -> Result<DocModel, Fault> {
        match csv_parsed(bytes, Dialect::Csv) {
            Ok(value) => Ok(bare(value, FormatTag::Csv, false)),
            Err(f) => Err(f),
        }
    }

    open spec fn write_model(&self, doc: DocModel) -> Emission {
        csv_written(doc.value, Dialect::Csv)
    }

    open spec fn options_model(&self, doc: DocModel, opts: WriteOptions) -> Emission {
        self.write_model(doc)
    }

    fn name(&self) -> (r: &'static str) {
        FormatTag::Csv.name()
    }

    fn extensions(&self) -> (r: Vec<&'static str>) {
        extension_list(FormatTag::Csv)
    }

    /// Bytes that were written of regular rows give those rows back.
    fn parse(&self, bytes: &[u8]) -> (r: Result<Document, Error>)
        ensures
            forall|items: Seq<Tree>| #[trigger]
                spells_items(bytes@, Dialect::Csv, items) ==> (r matches Ok(doc) && doc@.value
                    == Tree::Array(items)),
    {
        match parse_with_delimiter(bytes, Dialect::Csv) {
            Ok(value) => Ok(Document::value_only(value, FormatTag::Csv)),
            Err(e) => Err(e),
        }
    }

    fn parse_checked(&self, bytes: &[u8]) -> (r: Option<Result<Document, Error>>) {
        Some(self.parse(bytes))
    }

    fn write(&self, doc: &Document, w: &mut Vec<u8>) -> (r: Result<(), Error>) {
        write_with_delimiter(doc.value(), w, Dialect::Csv)
    }

    fn write_with_options(&self, doc: &Document, w: &mut Vec<u8>, _opts: &WriteOptions) -> (r: Result<
        (),
        Error,
    >) {
        self.write(doc, w)
    }
}

impl Format for Tsv {
    open spec fn tag(&self) -> FormatTag {
        FormatTag::Tsv
    }

    open spec fn parses(&self, bytes: Seq<u8>) -> bool {
        true
    }

    open spec fn parse_model(&self, bytes: Seq<u8>) -> Result<DocModel, Fault> {
        match csv_parsed(bytes, Dialect::Tsv) {
            Ok(value) => Ok(bare(value, FormatTag::Tsv, false)),
            Err(f) => Err(f),
        }
    }

    open spec fn write_model(&self, doc: DocModel) -> Emission {
        csv_written(doc.value, Dialect::Tsv)
    }

    open spec fn options_model(&self, doc: DocModel, opts: WriteOptions) -> Emission {
        self.write_model(doc)
    }

    fn name(&self) -> (r: &'static str) {
        FormatTag::Tsv.name()
    }

    fn extensions(&self) -> (r: Vec<&'static str>) {
        extension_list(FormatTag::Tsv)
    }

    /// Bytes that were written of regular rows give those rows back.
    fn parse(&self, bytes: &[u8]) -> (r: Result<Document, Error>)
        ensures
            forall|items: Seq<Tree>| #[trigger]
                spells_items(bytes@, Dialect::Tsv, items) ==> (r matches Ok(doc) && doc@.value
                    == Tree::Array(items)),
    {
        match parse_with_delimiter(bytes, Dialect::Tsv) {
            Ok(value) => Ok(Document::value_only(value, FormatTag::Tsv)),
            Err(e) => Err(e),
        }
    }

    fn parse_checked(&self, bytes: &[u8]) -> (r: Option<Result<Document, Error>>) {
        Some(self.parse(bytes))
    }

    fn write(&self, doc: &Document, w: &mut Vec<u8>) -> (r: Result<(), Error>) {
        write_with_delimiter(doc.value(), w, Dialect::Tsv)
    }

    fn write_with_options(&self, doc: &Document, w: &mut Vec<u8>, _opts: &WriteOptions) -> (r: Result<
        (),
        Error,
    >) {
        self.write(doc, w)
    }
}

} // verus!
