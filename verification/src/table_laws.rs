//! Rows, sections and lines: what is read of them is what stands in them, and
//! what is written of them is what they hold.

use crate::docker_laws::is_last_of_each;
use crate::error::Fault;
use crate::merge_laws::{
    law_merging_leaves_other_keys, law_merging_loses_nothing,
    law_merging_replaces_what_is_no_object,
};
use crate::numbers::{decimal, law_decimal_parses_back, parsed_index, parsed_int};
use crate::parsers::csv::{
    cell_of, cells_of, column_key, csv_written, keys_of, record_fault, row_cells, row_entries,
    rows_read, rows_written, stray_key, Dialect,
};
use crate::parsers::csv_records::{csv_record, table_text, RecordFaultModel, RecordModel};
use crate::parsers::ignore_list::{pattern_on, patterns};
use crate::parsers::ini::{
    properties, property_texts, section_to_write, sections_read, sections_to_write,
};
use crate::parsers::ini_sections::SectionModel;
use crate::parsers::json::json_document;
use crate::parsers::jsonl::line_values;
use crate::parsers::json_spelling::lemma_encode_two;
use crate::text::{is_white, trim, trim_end, trim_end_of, trim_start};
use crate::text_laws::{law_end_of_run_is_dropped, lemma_trim_end, lemma_trim_start};
use crate::value::{
    has_key, inserted, law_insert_keeps_keys_unique, law_insert_lookup, lemma_key_index_is, lookup,
    scalar_text_of, unique_keys, Tree,
};
use crate::value_laws::law_scalar_text_tells_the_scalar;
use vstd::prelude::*;
use vstd::utf8::encode_utf8;

verus! {

/// Whether a text says what a scalar is: a truth value by its word, an integer by
/// its digits, a text by itself, and nothing by nothing.
pub open spec fn says_scalar(text: Seq<char>, t: Tree) -> bool {
    match t {
        Tree::Null => text.len() == 0,
        Tree::Bool(b) => text == if b {
            seq!['t', 'r', 'u', 'e']
        } else {
            seq!['f', 'a', 'l', 's', 'e']
        },
        Tree::Int(n) => i64::MIN <= n <= i64::MAX ==> (parsed_int(text) matches Some(m) && m == n),
        Tree::BigInt(s) => text == s,
        Tree::BigFloat(s) => text == s,
        Tree::Float(s) => text == s,
        Tree::String(s) => text == s,
        Tree::Array(_) => false,
        Tree::Object(_) => false,
    }
}

proof fn lemma_said(t: Tree)
    ensures
        scalar_text_of(t) is Some <==> !(t is Array) && !(t is Object),
        scalar_text_of(t) matches Some(text) ==> says_scalar(text, t),
{
    law_scalar_text_tells_the_scalar(t);
}

// ---------------------------------------------------------------------------
// Rows that are read
// ---------------------------------------------------------------------------

/// The name of a column: its header, or where there is none a word with its
/// number behind it.
pub open spec fn is_column_name(key: Seq<char>, headers: Seq<Seq<char>>, i: int) -> bool {
    if i < headers.len() {
        key == headers[i]
    } else {
        &&& key.len() > 7
        &&& key.subrange(0, 7) == seq!['c', 'o', 'l', 'u', 'm', 'n', '_']
        &&& parsed_index(key.subrange(7, key.len() as int)) matches Some(n)
        &&& n == i
    }
}

proof fn lemma_column_name(headers: Seq<Seq<char>>, i: int)
    requires
        0 <= i <= usize::MAX,
    ensures
        is_column_name(column_key(headers, i), headers, i),
{
    if i >= headers.len() {
        reveal_strlit("column_");
        let key = column_key(headers, i);
        law_decimal_parses_back(i as usize);
        assert(key.subrange(0, 7) =~= seq!['c', 'o', 'l', 'u', 'm', 'n', '_']);
        assert(key.subrange(7, key.len() as int) =~= decimal(i as nat));
    }
}

/// The cells of a record, each with the name of its column.
pub open spec fn named_cells(headers: Seq<Seq<char>>, fields: Seq<Seq<char>>) -> Seq<
    (Seq<char>, Seq<char>),
> {
    Seq::new(fields.len(), |i: int| (column_key(headers, i), fields[i]))
}

proof fn lemma_row(headers: Seq<Seq<char>>, fields: Seq<Seq<char>>, k: int)
    requires
        0 <= k <= fields.len(),
    ensures
        is_last_of_each(
            Tree::Object(row_entries(headers, fields, k)),
            named_cells(headers, fields).subrange(0, k),
            |s: Seq<char>| Tree::String(s),
        ),
    decreases k,
{
    if k > 0 {
        lemma_row(headers, fields, k - 1);
        lemma_one_more(
            row_entries(headers, fields, k - 1),
            named_cells(headers, fields),
            k,
        );
    }
}

proof fn lemma_properties(pairs: Seq<(Seq<char>, Seq<char>)>, k: int)
    requires
        0 <= k <= pairs.len(),
    ensures
        is_last_of_each(
            Tree::Object(properties(pairs, k)),
            pairs.subrange(0, k),
            |s: Seq<char>| Tree::String(s),
        ),
    decreases k,
{
    if k > 0 {
        lemma_properties(pairs, k - 1);
        lemma_one_more(properties(pairs, k - 1), pairs, k);
    }
}

/// Putting in the next pair keeps the last of each.
proof fn lemma_one_more(
    before: Seq<(Seq<char>, Tree)>,
    pairs: Seq<(Seq<char>, Seq<char>)>,
    k: int,
)
    requires
        0 < k <= pairs.len(),
        is_last_of_each(
            Tree::Object(before),
            pairs.subrange(0, k - 1),
            |s: Seq<char>| Tree::String(s),
        ),
    ensures
        is_last_of_each(
            Tree::Object(inserted(before, pairs[k - 1].0, Tree::String(pairs[k - 1].1))),
            pairs.subrange(0, k),
            |s: Seq<char>| Tree::String(s),
        ),
{
    let (name, text) = pairs[k - 1];
    let entries = inserted(before, name, Tree::String(text));
    let part = pairs.subrange(0, k);
    let less = pairs.subrange(0, k - 1);
    law_insert_keeps_keys_unique(before, name, Tree::String(text));
    law_insert_lookup(before, name, Tree::String(text), name);
    assert forall|i: int|
        0 <= i < part.len() && (forall|j: int|
            i < j < part.len() ==> (#[trigger] part[j]).0 != part[i].0) implies lookup(
        entries,
        (#[trigger] part[i]).0,
    ) == Some(Tree::String(part[i].1)) by {
        if i < k - 1 {
            assert(part[k - 1].0 != part[i].0);
            law_insert_lookup(before, name, Tree::String(text), part[i].0);
            assert(less[i] == part[i]);
            assert forall|j: int| i < j < less.len() implies (#[trigger] less[j]).0
                != less[i].0 by {
                assert(part[j].0 != part[i].0);
            }
        }
    }
    assert forall|key: Seq<char>| #[trigger] has_key(entries, key) implies exists|i: int|
        0 <= i < part.len() && (#[trigger] part[i]).0 == key by {
        if key == name {
            assert(part[k - 1].0 == key);
        } else {
            law_insert_lookup(before, name, Tree::String(text), key);
            assert(lookup(entries, key) is Some);
            assert(has_key(before, key));
            let i = choose|i: int| 0 <= i < less.len() && (#[trigger] less[i]).0 == key;
            assert(part[i].0 == key);
        }
    }
}

/// Whether a fault is that of a record: it says on which line, and ends with what
/// was found wrong.
pub open spec fn is_record_fault(f: Fault, found: RecordFaultModel) -> bool {
    &&& f matches Fault::Parse { message, line, .. }
    &&& message.len() >= found.message.len()
    &&& message.subrange(message.len() - found.message.len(), message.len() as int) == found.message
    &&& found.line matches Some(n) ==> line == n % 0x1_0000_0000
}

/// Each record is an object with every cell under the name of its column; of
/// equal names the last one counts. Reading stops at the first record that cannot
/// be read.
pub proof fn law_every_cell_is_read(
    dialect: Dialect,
    headers: Seq<Seq<char>>,
    records: Seq<RecordModel>,
    k: int,
)
    requires
        0 <= k <= records.len(),
        forall|i: int|
            0 <= i < records.len() && (#[trigger] records[i]) is Ok ==> records[i]->Ok_0.len()
                <= usize::MAX,
    ensures
        match rows_read(dialect, headers, records, k) {
            Ok(rows) => {
                &&& rows.len() == k
                &&& forall|i: int|
                    0 <= i < k ==> ((#[trigger] records[i]) matches Ok(fields) && is_last_of_each(
                        rows[i],
                        named_cells(headers, fields),
                        |s: Seq<char>| Tree::String(s),
                    ) && forall|j: int|
                        0 <= j < fields.len() ==> is_column_name(
                            (#[trigger] named_cells(headers, fields)[j]).0,
                            headers,
                            j,
                        ))
            },
            Err(f) => exists|i: int|
                {
                    &&& 0 <= i < k
                    &&& (#[trigger] records[i]) matches Err(found) && is_record_fault(f, found)
                    &&& forall|j: int| 0 <= j < i ==> (#[trigger] records[j]) is Ok
                },
        },
    decreases k,
{
    if k > 0 {
        law_every_cell_is_read(dialect, headers, records, k - 1);
        match rows_read(dialect, headers, records, k - 1) {
            Ok(before) => {
                match records[k - 1] {
                    Ok(fields) => {
                        lemma_row(headers, fields, fields.len() as int);
                        let cells = named_cells(headers, fields);
                        assert(cells.subrange(0, fields.len() as int) =~= cells);
                        assert forall|j: int| 0 <= j < fields.len() implies is_column_name(
                            (#[trigger] cells[j]).0,
                            headers,
                            j,
                        ) by {
                            lemma_column_name(headers, j);
                        }
                        let rows = rows_read(dialect, headers, records, k)->Ok_0;
                        assert forall|i: int| 0 <= i < k implies ((
                        #[trigger] records[i]) matches Ok(fields) && is_last_of_each(
                            rows[i],
                            named_cells(headers, fields),
                            |s: Seq<char>| Tree::String(s),
                        ) && forall|j: int|
                            0 <= j < fields.len() ==> is_column_name(
                                (#[trigger] named_cells(headers, fields)[j]).0,
                                headers,
                                j,
                            )) by {
                            if i < k - 1 {
                                assert(rows[i] == before[i]);
                            }
                        }
                    },
                    Err(found) => {
                        let f = record_fault(dialect, (k - 1) as nat, found);
                        let message = f->Parse_message;
                        assert(message.subrange(
                            message.len() - found.message.len(),
                            message.len() as int,
                        ) =~= found.message);
                        assert(is_record_fault(f, found));
                        assert forall|j: int| 0 <= j < k - 1 implies (
                        #[trigger] records[j]) is Ok by {}
                    },
                }
            },
            Err(f) => {},
        }
    }
}

// ---------------------------------------------------------------------------
// Rows that are written
// ---------------------------------------------------------------------------

/// Whether a row can be written under a header: it is an object whose keys all
/// stand in the header, and none of what stands under them is a collection.
pub open spec fn fits_header(row: Tree, headers: Seq<Seq<char>>) -> bool {
    &&& row matches Tree::Object(entries)
    &&& forall|i: int| 0 <= i < entries.len() ==> headers.contains((#[trigger] entries[i]).0)
    &&& forall|j: int|
        0 <= j < headers.len() ==> (lookup(entries, #[trigger] headers[j]) matches Some(t) ==> !(
        t is Array) && !(t is Object))
}

/// Whether cells are those of a row: under each header what the row holds there,
/// and nothing where it holds nothing.
pub open spec fn are_cells_of(cells: Seq<Seq<char>>, row: Tree, headers: Seq<Seq<char>>) -> bool {
    &&& row matches Tree::Object(entries)
    &&& cells.len() == headers.len()
    &&& forall|j: int|
        0 <= j < headers.len() ==> match lookup(entries, #[trigger] headers[j]) {
            Some(t) => says_scalar(cells[j], t),
            None => cells[j].len() == 0,
        }
}

proof fn lemma_stray(entries: Seq<(Seq<char>, Tree)>, headers: Seq<Seq<char>>, k: int)
    requires
        0 <= k <= entries.len(),
    ensures
        stray_key(entries, headers, k) is None <==> forall|i: int|
            k <= i < entries.len() ==> headers.contains((#[trigger] entries[i]).0),
    decreases entries.len() - k,
{
    if k < entries.len() {
        lemma_stray(entries, headers, k + 1);
        if headers.contains(entries[k].0) {
            if forall|i: int|
                k + 1 <= i < entries.len() ==> headers.contains((#[trigger] entries[i]).0) {
                assert forall|i: int| k <= i < entries.len() implies headers.contains(
                    (#[trigger] entries[i]).0,
                ) by {}
            }
        }
    }
}

proof fn lemma_cells(
    dialect: Dialect,
    idx: nat,
    entries: Seq<(Seq<char>, Tree)>,
    headers: Seq<Seq<char>>,
    k: int,
)
    requires
        0 <= k <= headers.len(),
    ensures
        cells_of(dialect, idx, entries, headers, k) is Ok <==> forall|j: int|
            0 <= j < k ==> (lookup(entries, #[trigger] headers[j]) matches Some(t) ==> !(t is Array)
                && !(t is Object)),
        cells_of(dialect, idx, entries, headers, k) matches Ok(cells) ==> {
            &&& cells.len() == k
            &&& forall|j: int|
                0 <= j < k ==> match lookup(entries, #[trigger] headers[j]) {
                    Some(t) => says_scalar(cells[j], t),
                    None => cells[j].len() == 0,
                }
        },
    decreases k,
{
    if k > 0 {
        lemma_cells(dialect, idx, entries, headers, k - 1);
        let header = headers[k - 1];
        if let Some(t) = lookup(entries, header) {
            lemma_said(t);
        }
        if cells_of(dialect, idx, entries, headers, k - 1) is Ok && cell_of(
            dialect,
            idx,
            entries,
            header,
        ) is Ok {
            let cells = cells_of(dialect, idx, entries, headers, k)->Ok_0;
            let before = cells_of(dialect, idx, entries, headers, k - 1)->Ok_0;
            assert forall|j: int| 0 <= j < k implies match lookup(entries, #[trigger] headers[j]) {
                Some(t) => says_scalar(cells[j], t),
                None => cells[j].len() == 0,
            } by {
                if j < k - 1 {
                    assert(cells[j] == before[j]);
                }
            }
        }
    }
}

proof fn lemma_row_cells(dialect: Dialect, idx: nat, row: Tree, headers: Seq<Seq<char>>)
    ensures
        row_cells(dialect, idx, row, headers) is Ok <==> fits_header(row, headers),
        row_cells(dialect, idx, row, headers) matches Ok(cells) ==> are_cells_of(
            cells,
            row,
            headers,
        ),
{
    if let Tree::Object(entries) = row {
        lemma_cells(dialect, idx, entries, headers, headers.len() as int);
        lemma_stray(entries, headers, 0);
    }
}

/// Whether bytes are a table whose first record is the header and whose others
/// are the rows in order, with commas or tabs between the cells.
pub open spec fn are_rows(
    bytes: Seq<u8>,
    dialect: Dialect,
    table: Seq<Seq<Seq<char>>>,
    items: Seq<Tree>,
    headers: Seq<Seq<char>>,
) -> bool {
    &&& table.len() == items.len() + 1
    &&& table[0] == headers
    &&& forall|i: int|
        0 <= i < items.len() ==> are_cells_of(#[trigger] table[i + 1], items[i], headers)
    &&& bytes == encode_utf8(
        table_text(
            table,
            match dialect {
                Dialect::Csv => ',',
                Dialect::Tsv => '\t',
            },
        ),
    )
}

proof fn lemma_rows(dialect: Dialect, items: Seq<Tree>, headers: Seq<Seq<char>>, k: int) -> (table:
    Seq<Seq<Seq<char>>>)
    requires
        0 <= k <= items.len(),
    ensures
        rows_written(dialect, items, headers, k).1 is Ok <==> forall|i: int|
            0 <= i < k ==> fits_header(#[trigger] items[i], headers),
        rows_written(dialect, items, headers, k).1 is Ok ==> are_rows(
            rows_written(dialect, items, headers, k).0,
            dialect,
            table,
            items.subrange(0, k),
            headers,
        ),
    decreases k,
{
    let mark = dialect.mark() as char;
    assert(mark == match dialect {
        Dialect::Csv => ',',
        Dialect::Tsv => '\t',
    });
    if k <= 0 {
        let table = seq![headers];
        assert(table.drop_last() =~= Seq::<Seq<Seq<char>>>::empty());
        assert(table_text(table.drop_last(), mark) =~= Seq::<char>::empty());
        assert(table_text(table, mark) =~= csv_record(headers, mark));
        table
    } else {
        let before = lemma_rows(dialect, items, headers, k - 1);
        lemma_row_cells(dialect, (k - 1) as nat, items[k - 1], headers);
        if rows_written(dialect, items, headers, k - 1).1 is Ok && row_cells(
            dialect,
            (k - 1) as nat,
            items[k - 1],
            headers,
        ) is Ok {
            let cells = row_cells(dialect, (k - 1) as nat, items[k - 1], headers)->Ok_0;
            let table = before.push(cells);
            assert(table.drop_last() =~= before);
            lemma_encode_two(table_text(before, mark), csv_record(cells, mark));
            let part = items.subrange(0, k);
            assert forall|i: int| 0 <= i < part.len() implies are_cells_of(
                #[trigger] table[i + 1],
                part[i],
                headers,
            ) by {
                if i < k - 1 {
                    assert(table[i + 1] == before[i + 1]);
                    assert(part[i] == items.subrange(0, k - 1)[i]);
                }
            }
            table
        } else {
            before
        }
    }
}

/// Rows are written as they are: the header holds the keys of the first row, and
/// every cell what its row holds under its header. That fails exactly where a row
/// is no object, has a key that the first row lacks, or holds a collection.
pub proof fn law_every_cell_is_written(dialect: Dialect, items: Seq<Tree>, first: Seq<(Seq<char>, Tree)>)
    requires
        items.len() > 0,
        items[0] == Tree::Object(first),
    ensures
        ({
            let headers = first.map_values(|e: (Seq<char>, Tree)| e.0);
            let written = csv_written(Tree::Array(items), dialect);
            &&& written.1 is Ok <==> forall|i: int|
                0 <= i < items.len() ==> fits_header(#[trigger] items[i], headers)
            &&& written.1 is Ok ==> exists|table: Seq<Seq<Seq<char>>>|
                #[trigger] are_rows(written.0, dialect, table, items, headers)
        }),
{
    let headers = first.map_values(|e: (Seq<char>, Tree)| e.0);
    assert(headers =~= keys_of(first));
    let table = lemma_rows(dialect, items, headers, items.len() as int);
    assert(items.subrange(0, items.len() as int) =~= items);
}

// ---------------------------------------------------------------------------
// Sections
// ---------------------------------------------------------------------------

/// The name that a section stands under; the one without a name under the empty
/// one.
pub open spec fn name_of(section: SectionModel) -> Seq<char> {
    match section.name {
        Some(name) => name,
        None => Seq::empty(),
    }
}

/// The last value that a list of properties gives a key.
pub open spec fn last_in(pairs: Seq<(Seq<char>, Seq<char>)>, k: int, key: Seq<char>) -> Option<
    Seq<char>,
>
    decreases k,
{
    if k <= 0 {
        None
    } else if pairs[k - 1].0 == key {
        Some(pairs[k - 1].1)
    } else {
        last_in(pairs, k - 1, key)
    }
}

/// The last value that the first `k` sections give a key in sections of a name.
pub open spec fn last_value(
    sections: Seq<SectionModel>,
    k: int,
    name: Seq<char>,
    key: Seq<char>,
) -> Option<Seq<char>>
    decreases k,
{
    if k <= 0 {
        None
    } else {
        let section = sections[k - 1];
        let here = last_in(section.entries, section.entries.len() as int, key);
        if name_of(section) == name && here is Some {
            here
        } else {
            last_value(sections, k - 1, name, key)
        }
    }
}

/// Whether one of the first `k` sections is shown under a name.
pub open spec fn is_section(sections: Seq<SectionModel>, k: int, name: Seq<char>) -> bool {
    exists|i: int|
        0 <= i < k && name_of(#[trigger] sections[i]) == name && (sections[i].name is Some
            || sections[i].entries.len() > 0)
}

proof fn lemma_last_property(pairs: Seq<(Seq<char>, Seq<char>)>, k: int, key: Seq<char>)
    requires
        0 <= k <= pairs.len(),
    ensures
        lookup(properties(pairs, k), key) == (match last_in(pairs, k, key) {
            Some(text) => Some(Tree::String(text)),
            None => None,
        }),
        unique_keys(properties(pairs, k)),
    decreases k,
{
    if k > 0 {
        lemma_last_property(pairs, k - 1, key);
        let before = properties(pairs, k - 1);
        law_insert_lookup(before, pairs[k - 1].0, Tree::String(pairs[k - 1].1), key);
        law_insert_keeps_keys_unique(before, pairs[k - 1].0, Tree::String(pairs[k - 1].1));
    } else {
        lemma_key_index_is(properties(pairs, k), key, 0);
    }
}

/// Every property is found in its section under its key. Sections of one name are
/// one object, and of equal keys the last one counts.
pub proof fn law_every_property_is_read(
    sections: Seq<SectionModel>,
    k: int,
    name: Seq<char>,
    key: Seq<char>,
)
    requires
        0 <= k <= sections.len(),
    ensures
        match lookup(sections_read(sections, k), name) {
            Some(Tree::Object(entries)) => {
                &&& is_section(sections, k, name)
                &&& unique_keys(entries)
                &&& lookup(entries, key) == (match last_value(sections, k, name, key) {
                    Some(text) => Some(Tree::String(text)),
                    None => None,
                })
            },
            Some(_) => false,
            None => !is_section(sections, k, name) && last_value(sections, k, name, key) is None,
        },
    decreases k,
{
    if k > 0 {
        law_every_property_is_read(sections, k - 1, name, key);
        let before = sections_read(sections, k - 1);
        let section = sections[k - 1];
        let n = section.entries.len() as int;
        let body = properties(section.entries, n);
        lemma_last_property(section.entries, n, key);
        if section.name is None && n == 0 {
            assert(last_in(section.entries, n, key) is None);
            assert(is_section(sections, k, name) == is_section(sections, k - 1, name));
        } else if name_of(section) != name {
            law_merging_leaves_other_keys(before, name_of(section), Tree::Object(body), name);
            assert(is_section(sections, k, name) == is_section(sections, k - 1, name));
        } else {
            assert(name_of(sections[k - 1]) == name);
            assert(is_section(sections, k, name));
            match lookup(before, name) {
                Some(Tree::Object(existing)) => {
                    law_merging_loses_nothing(before, name, existing, body, key);
                },
                _ => {
                    law_merging_replaces_what_is_no_object(before, name, Tree::Object(body));
                },
            }
        }
    } else {
        lemma_key_index_is(sections_read(sections, k), name, 0);
    }
}

/// Whether a value can be written as a section: an object without collections.
pub open spec fn fits_section(t: Tree) -> bool {
    &&& t matches Tree::Object(entries)
    &&& forall|i: int|
        0 <= i < entries.len() ==> !((#[trigger] entries[i]).1 is Array) && !(entries[i].1 is Object)
}

/// Whether a section is that of an entry of the top object: its name is the key,
/// and its properties are the entries in order.
pub open spec fn is_section_of(section: SectionModel, key: Seq<char>, t: Tree) -> bool {
    &&& t matches Tree::Object(entries)
    &&& name_of(section) == key
    &&& section.name is None <==> key.len() == 0
    &&& section.entries.len() == entries.len()
    &&& forall|i: int|
        0 <= i < entries.len() ==> (#[trigger] section.entries[i]).0 == entries[i].0 && says_scalar(
            section.entries[i].1,
            entries[i].1,
        )
}

proof fn lemma_property_texts(section: Seq<char>, entries: Seq<(Seq<char>, Tree)>, k: int)
    requires
        0 <= k <= entries.len(),
    ensures
        property_texts(section, entries, k) is Ok <==> forall|i: int|
            0 <= i < k ==> !((#[trigger] entries[i]).1 is Array) && !(entries[i].1 is Object),
        property_texts(section, entries, k) matches Ok(pairs) ==> {
            &&& pairs.len() == k
            &&& forall|i: int|
                0 <= i < k ==> (#[trigger] pairs[i]).0 == entries[i].0 && says_scalar(
                    pairs[i].1,
                    entries[i].1,
                )
        },
    decreases k,
{
    if k > 0 {
        lemma_property_texts(section, entries, k - 1);
        lemma_said(entries[k - 1].1);
        if property_texts(section, entries, k) is Ok {
            let pairs = property_texts(section, entries, k)->Ok_0;
            let before = property_texts(section, entries, k - 1)->Ok_0;
            assert forall|i: int| 0 <= i < k implies (#[trigger] pairs[i]).0 == entries[i].0
                && says_scalar(pairs[i].1, entries[i].1) by {
                if i < k - 1 {
                    assert(pairs[i] == before[i]);
                }
            }
        }
    }
}

/// The entries of an object are written as sections in order, each with all its
/// properties. That fails exactly where one is no object or holds a collection.
pub proof fn law_every_property_is_written(top: Seq<(Seq<char>, Tree)>, k: int)
    requires
        0 <= k <= top.len(),
    ensures
        sections_to_write(top, k) is Ok <==> forall|i: int|
            0 <= i < k ==> fits_section((#[trigger] top[i]).1),
        sections_to_write(top, k) matches Ok(sections) ==> {
            &&& sections.len() == k
            &&& forall|i: int|
                0 <= i < k ==> is_section_of(#[trigger] sections[i], top[i].0, top[i].1)
        },
    decreases k,
{
    if k > 0 {
        law_every_property_is_written(top, k - 1);
        let (key, value) = top[k - 1];
        if let Tree::Object(entries) = value {
            lemma_property_texts(key, entries, entries.len() as int);
            if property_texts(key, entries, entries.len() as int) is Ok {
                let section = section_to_write(key, value)->Ok_0;
                assert(name_of(section) =~= key);
                assert(is_section_of(section, key, value));
            }
        }
        if sections_to_write(top, k) is Ok {
            let sections = sections_to_write(top, k)->Ok_0;
            let before = sections_to_write(top, k - 1)->Ok_0;
            assert forall|i: int| 0 <= i < k implies is_section_of(
                #[trigger] sections[i],
                top[i].0,
                top[i].1,
            ) by {
                if i < k - 1 {
                    assert(sections[i] == before[i]);
                }
            }
        }
    }
}

// ---------------------------------------------------------------------------
// Lines
// ---------------------------------------------------------------------------

/// Whether a line is blank, or a comment: nothing but white space, or a hash
/// behind it.
pub open spec fn holds_no_pattern(line: Seq<char>) -> bool {
    ||| forall|i: int| 0 <= i < line.len() ==> is_white(#[trigger] line[i])
    ||| exists|i: int|
        0 <= i < line.len() && #[trigger] line[i] == '#' && forall|j: int|
            0 <= j < i ==> is_white(#[trigger] line[j])
}

/// Whether a text is a line without the white space behind it.
pub open spec fn is_line_without_end(p: Seq<char>, line: Seq<char>) -> bool {
    &&& p.len() <= line.len()
    &&& p == line.subrange(0, p.len() as int)
    &&& forall|i: int| p.len() <= i < line.len() ==> is_white(#[trigger] line[i])
    &&& p.len() > 0 ==> !is_white(p.last())
}

/// A line holds a pattern unless it is blank or a comment. The pattern is the
/// line without the white space behind it.
pub proof fn law_pattern_is_its_line(raw: Seq<char>)
    ensures
        pattern_on(raw) is None <==> holds_no_pattern(raw),
        pattern_on(raw) matches Some(p) ==> is_line_without_end(p, raw),
{
    law_end_of_run_is_dropped(raw, '\r');
    let kept = trim_end_of(raw, '\r');
    let b = lemma_trim_end(kept);
    let line = trim_end(kept);
    let a = lemma_trim_start(line);
    let shown = trim_start(line);
    assert(line =~= raw.subrange(0, b));
    assert forall|i: int| b <= i < raw.len() implies is_white(#[trigger] raw[i]) by {
        if i < kept.len() {
            assert(kept[i] == raw[i]);
        }
    }
    if b > 0 {
        assert(kept[b - 1] == line.last());
    }
    if shown.len() == 0 {
        assert forall|i: int| 0 <= i < raw.len() implies is_white(#[trigger] raw[i]) by {
            if i < b {
                assert(line[i] == raw[i]);
            }
        }
    } else {
        assert(shown[0] == line[a] && line[a] == raw[a]);
        assert forall|j: int| 0 <= j < a implies is_white(#[trigger] raw[j]) by {
            assert(line[j] == raw[j]);
        }
        assert(!is_white(raw[a]));
        if shown[0] == '#' {
            assert(raw[a] == '#');
            assert(holds_no_pattern(raw));
        } else if holds_no_pattern(raw) {
            if forall|i: int| 0 <= i < raw.len() ==> is_white(#[trigger] raw[i]) {
                assert(is_white(raw[a]));
            } else {
                let i = choose|i: int|
                    0 <= i < raw.len() && #[trigger] raw[i] == '#' && forall|j: int|
                        0 <= j < i ==> is_white(#[trigger] raw[j]);
                assert(!is_white('#'));
                assert(i <= a);
                assert(i >= a);
            }
        }
    }
}

/// How many of the first `k` lines hold a pattern.
pub open spec fn patterns_before(lines: Seq<Seq<char>>, k: int) -> int
    decreases k,
{
    if k <= 0 {
        0
    } else {
        patterns_before(lines, k - 1) + if holds_no_pattern(lines[k - 1]) {
            0int
        } else {
            1int
        }
    }
}

proof fn lemma_patterns_grow(lines: Seq<Seq<char>>, i: int, k: int)
    requires
        0 <= i <= k,
    ensures
        0 <= patterns_before(lines, i) <= patterns_before(lines, k),
        i < k && !holds_no_pattern(lines[i]) ==> patterns_before(lines, i) < patterns_before(
            lines,
            k,
        ),
    decreases k,
{
    if i < k {
        lemma_patterns_grow(lines, i, k - 1);
    } else if k > 0 {
        lemma_patterns_grow(lines, k - 1, k - 1);
    }
}

/// An ignore list holds the patterns of its lines, in their order, and nothing
/// else.
pub proof fn law_every_pattern_is_listed(lines: Seq<Seq<char>>, k: int)
    requires
        0 <= k <= lines.len(),
    ensures
        patterns(lines, k).len() == patterns_before(lines, k),
        forall|i: int|
            0 <= i < k && !holds_no_pattern(#[trigger] lines[i]) ==> (patterns(
                lines,
                k,
            )[patterns_before(lines, i)] matches Tree::String(p) && is_line_without_end(p, lines[i])),
    decreases k,
{
    if k > 0 {
        law_every_pattern_is_listed(lines, k - 1);
        law_pattern_is_its_line(lines[k - 1]);
        let before = patterns(lines, k - 1);
        assert forall|i: int| 0 <= i < k && !holds_no_pattern(#[trigger] lines[i]) implies (
        patterns(lines, k)[patterns_before(lines, i)] matches Tree::String(p)
            && is_line_without_end(p, lines[i])) by {
            lemma_patterns_grow(lines, i, k - 1);
            if i < k - 1 {
                assert(patterns(lines, k)[patterns_before(lines, i)]
                    == before[patterns_before(lines, i)]);
            }
        }
    }
}

/// Whether a line is blank.
pub open spec fn is_blank_line(line: Seq<char>) -> bool {
    forall|i: int| 0 <= i < line.len() ==> is_white(#[trigger] line[i])
}

/// How many of the first `k` lines are not blank.
pub open spec fn values_before(lines: Seq<Seq<char>>, k: int) -> int
    decreases k,
{
    if k <= 0 {
        0
    } else {
        values_before(lines, k - 1) + if is_blank_line(lines[k - 1]) {
            0int
        } else {
            1int
        }
    }
}

proof fn lemma_values_grow(lines: Seq<Seq<char>>, i: int, k: int)
    requires
        0 <= i <= k,
    ensures
        0 <= values_before(lines, i) <= values_before(lines, k),
        i < k && !is_blank_line(lines[i]) ==> values_before(lines, i) < values_before(lines, k),
    decreases k,
{
    if i < k {
        lemma_values_grow(lines, i, k - 1);
    } else if k > 0 {
        lemma_values_grow(lines, k - 1, k - 1);
    }
}

proof fn lemma_blank(line: Seq<char>)
    ensures
        trim(trim_end_of(line, '\r')).len() == 0 <==> is_blank_line(line),
{
    law_end_of_run_is_dropped(line, '\r');
    let kept = trim_end_of(line, '\r');
    let a = lemma_trim_start(kept);
    let t = trim_start(kept);
    let b = lemma_trim_end(t);
    if trim(kept).len() == 0 {
        assert(b == 0);
        assert forall|i: int| 0 <= i < line.len() implies is_white(#[trigger] line[i]) by {
            if i < kept.len() {
                assert(kept[i] == line[i]);
                if i >= a {
                    assert(t[i - a] == kept[i]);
                }
            }
        }
    } else {
        assert(t.len() > 0);
        assert(kept[a] == line[a]);
        assert(!is_white(line[a]));
    }
}

/// The line without the carriage returns that end it.
pub open spec fn line_content(line: Seq<char>) -> Seq<char> {
    trim_end_of(line, '\r')
}

/// JSON lines are read one value to a line, in their order; blank lines are passed
/// over. Reading stops at the first line that is no JSON, and says which it is.
pub proof fn law_every_line_is_read(lines: Seq<Seq<char>>, k: int)
    requires
        0 <= k <= lines.len(),
    ensures
        match line_values(lines, k) {
            Ok(items) => {
                &&& items.len() == values_before(lines, k)
                &&& forall|i: int|
                    0 <= i < k && !is_blank_line(#[trigger] lines[i]) ==> (json_document(
                        encode_utf8(line_content(lines[i])),
                    ) matches Ok(doc) && doc.value == items[values_before(lines, i)])
            },
            Err(f) => exists|i: int|
                {
                    &&& 0 <= i < k && !is_blank_line(#[trigger] lines[i])
                    &&& json_document(encode_utf8(line_content(lines[i]))) matches Err(found)
                    &&& found is Parse ==> (f matches Fault::Parse { line, snippet, message, .. }
                        && line == (i + 1) % 0x1_0000_0000 && snippet == line_content(lines[i])
                        && message == found->Parse_message)
                },
        },
    decreases k,
{
    if k > 0 {
        law_every_line_is_read(lines, k - 1);
        lemma_blank(lines[k - 1]);
        if let Ok(before) = line_values(lines, k - 1) {
            if let Ok(items) = line_values(lines, k) {
                assert forall|i: int| 0 <= i < k && !is_blank_line(#[trigger] lines[i]) implies (
                json_document(encode_utf8(line_content(lines[i]))) matches Ok(doc) && doc.value
                    == items[values_before(lines, i)]) by {
                    lemma_values_grow(lines, i, k - 1);
                    if i < k - 1 {
                        assert(items[values_before(lines, i)] == before[values_before(lines, i)]);
                    }
                }
            } else {
                assert(!is_blank_line(lines[k - 1]));
            }
        }
    }
}

} // verus!
