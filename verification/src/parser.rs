//! Tolerant tab-delimited parsing of decoded text into a structured table,
//! and the inverse serialization used on save.
//!
//! A text splits at every line feed into records; a trailing carriage return
//! on a record is dropped (so CRLF texts parse the same way), and blank
//! records are skipped. The first record's tab-separated fields become the
//! headers; every later record becomes a data row. Rows whose field count
//! differs from the header's are kept as-is: ragged rows are a supported
//! case, not an error.

use vstd::prelude::*;
use crate::text::{
    free_of, join_with, lemma_join_push, lemma_split_char_step, lemma_split_char_whole,
    lemma_split_of_join, split_char, split_str, strs,
};
use crate::TsvError;

verus! {

/// Metadata of a parsed file: everything but the row data.
#[derive(Debug)]
pub struct FileMetadata {
    pub headers: Vec<String>,
    pub encoding: String,
    pub path: String,
    pub row_count: usize,
    pub column_count: usize,
    pub line_ending: String,
}

/// A parsed file: metadata plus the data rows.
#[derive(Debug)]
pub struct ParsedFile {
    pub meta: FileMetadata,
    pub rows: Vec<Vec<String>>,
}

/// The views of a sequence of rows of owned strings.
pub open spec fn rows_view(rows: Seq<Vec<String>>) -> Seq<Seq<Seq<char>>> {
    rows.map_values(|r: Vec<String>| strs(r@))
}

/// A record with a trailing carriage return loses it; any other record is
/// unchanged.
pub open spec fn strip_cr(rec: Seq<char>) -> Seq<char> {
    if rec.len() > 0 && rec.last() == '\r' {
        rec.drop_last()
    } else {
        rec
    }
}

/// The records kept after stripping trailing carriage returns and skipping
/// blank records.
pub open spec fn logical_records(raw: Seq<Seq<char>>) -> Seq<Seq<char>>
    decreases raw.len(),
{
    if raw.len() == 0 {
        Seq::empty()
    } else {
        let rest = logical_records(raw.drop_last());
        let rec = strip_cr(raw.last());
        if rec.len() > 0 {
            rest.push(rec)
        } else {
            rest
        }
    }
}

/// `logical_records` unfolded from the front instead of the back.
pub proof fn lemma_logical_records_front(raw: Seq<Seq<char>>)
    requires
        raw.len() > 0,
    ensures
        logical_records(raw) =~= (if strip_cr(raw[0]).len() > 0 {
            seq![strip_cr(raw[0])]
        } else {
            Seq::<Seq<char>>::empty()
        }) + logical_records(raw.skip(1)),
    decreases raw.len(),
{
    if raw.len() == 1 {
        assert(raw.drop_last() =~= Seq::<Seq<char>>::empty());
        assert(raw.skip(1) =~= Seq::<Seq<char>>::empty());
        assert(raw.last() == raw[0]);
    } else {
        let init = raw.drop_last();
        lemma_logical_records_front(init);
        assert(init[0] == raw[0]);
        assert(raw.skip(1).drop_last() =~= init.skip(1));
        assert(raw.skip(1).last() == raw.last());
        assert(raw.skip(1).len() > 0);
    }
}

/// The tab-separated fields of one record.
pub open spec fn record_fields(rec: Seq<char>) -> Seq<Seq<char>> {
    split_char(rec, '\t')
}

/// The logical records of a text: split at line feeds, carriage returns
/// stripped, blank records skipped.
pub open spec fn spec_records(text: Seq<char>) -> Seq<Seq<char>> {
    logical_records(split_char(text, '\n'))
}

/// The header row a text parses to: the fields of its first logical record.
pub open spec fn spec_headers(text: Seq<char>) -> Seq<Seq<char>> {
    if spec_records(text).len() == 0 {
        Seq::empty()
    } else {
        record_fields(spec_records(text)[0])
    }
}

/// The data rows a text parses to: the fields of every logical record after
/// the first.
pub open spec fn spec_rows(text: Seq<char>) -> Seq<Seq<Seq<char>>> {
    if spec_records(text).len() == 0 {
        Seq::empty()
    } else {
        spec_records(text).skip(1).map_values(|r: Seq<char>| record_fields(r))
    }
}

/// Drops a trailing carriage return from a record, if one is there.
fn strip_cr_exec(rec: &String) -> (r: String)
    ensures
        r@ == strip_cr(rec@),
{
    let n = rec.as_str().unicode_len();
    if n > 0 && rec.as_str().get_char(n - 1) == '\r' {
        let head = rec.as_str().substring_char(0, n - 1);
        assert(head@ =~= rec@.drop_last());
        String::from_str(head)
    } else {
        rec.clone()
    }
}

/// Parses decoded text as tab-separated values: the first logical record
/// gives the headers, the rest the rows, ragged rows kept as they are. The
/// reader accepts every text, so the result is always `Ok`; the derived
/// counts in the metadata match the parsed content, and the given path,
/// encoding and line-ending names are carried through.
pub fn parse_tsv(text: &str, path: &str, encoding: &str, line_ending: &str) -> (r: Result<
    ParsedFile,
    TsvError,
>)
    ensures
        r matches Ok(p) && {
            &&& strs(p.meta.headers@) == spec_headers(text@)
            &&& rows_view(p.rows@) == spec_rows(text@)
            &&& p.meta.encoding@ == encoding@
            &&& p.meta.path@ == path@
            &&& p.meta.line_ending@ == line_ending@
            &&& p.meta.row_count == p.rows@.len()
            &&& p.meta.column_count == p.meta.headers@.len()
        },
{
    let raw = split_str(text, '\n');
    let mut logical: Vec<String> = Vec::new();
    let mut k: usize = 0;
    while k < raw.len()
        invariant
            0 <= k <= raw@.len(),
            strs(raw@) =~= split_char(text@, '\n'),
            strs(logical@) =~= logical_records(strs(raw@).take(k as int)),
        decreases raw@.len() - k,
    {
        let ghost prev = strs(logical@);
        let rec = strip_cr_exec(&raw[k]);
        let n = rec.as_str().unicode_len();
        if n > 0 {
            logical.push(rec);
            assert(strs(logical@) =~= prev.push(strip_cr(strs(raw@)[k as int])));
        }
        proof {
            let t = strs(raw@).take(k as int + 1);
            assert(t.drop_last() =~= strs(raw@).take(k as int));
            assert(t.last() == strs(raw@)[k as int]);
            assert(strs(logical@) =~= logical_records(t));
        }
        k += 1;
    }
    assert(strs(raw@).take(raw@.len() as int) =~= strs(raw@));
    assert(strs(logical@) =~= spec_records(text@));

    let mut headers: Vec<String> = Vec::new();
    if logical.len() > 0 {
        headers = split_str(logical[0].as_str(), '\t');
        assert(strs(headers@) =~= spec_headers(text@));
    } else {
        assert(strs(headers@) =~= spec_headers(text@));
    }
    let mut rows: Vec<Vec<String>> = Vec::new();
    let mut k2: usize = 1;
    while logical.len() > 0 && k2 < logical.len()
        invariant
            strs(logical@) =~= spec_records(text@),
            1 <= k2,
            logical@.len() > 0 ==> k2 <= logical@.len(),
            logical@.len() == 0 ==> rows@.len() == 0,
            logical@.len() > 0 ==> rows_view(rows@) =~= strs(logical@).subrange(
                1,
                k2 as int,
            ).map_values(|r: Seq<char>| record_fields(r)),
        decreases logical@.len() - k2,
    {
        let ghost prev = rows_view(rows@);
        let fields = split_str(logical[k2].as_str(), '\t');
        rows.push(fields);
        proof {
            assert(rows_view(rows@) =~= prev.push(record_fields(strs(logical@)[k2 as int])));
            assert(strs(logical@).subrange(1, k2 as int + 1) =~= strs(logical@).subrange(
                1,
                k2 as int,
            ).push(strs(logical@)[k2 as int]));
            assert(rows_view(rows@) =~= strs(logical@).subrange(1, k2 as int + 1).map_values(
                |r: Seq<char>| record_fields(r),
            ));
        }
        k2 += 1;
    }
    proof {
        if strs(logical@).len() == 0 {
            assert(rows_view(rows@) =~= spec_rows(text@));
        } else {
            assert(strs(logical@).subrange(1, strs(logical@).len() as int) =~= strs(
                logical@,
            ).skip(1));
            assert(rows_view(rows@) =~= spec_rows(text@));
        }
    }
    let row_count = rows.len();
    let column_count = headers.len();
    Ok(
        ParsedFile {
            meta: FileMetadata {
                headers,
                encoding: String::from_str(encoding),
                path: String::from_str(path),
                row_count,
                column_count,
                line_ending: String::from_str(line_ending),
            },
            rows,
        },
    )
}

/// One row serialized as a line: its cells joined with tabs.
pub open spec fn line_of(cells: Seq<Seq<char>>) -> Seq<char> {
    join_with(cells, seq!['\t'])
}

/// The lines a table serializes to: the header line, then one line per row.
pub open spec fn table_lines(headers: Seq<Seq<char>>, rows: Seq<Seq<Seq<char>>>) -> Seq<Seq<char>> {
    seq![line_of(headers)] + rows.map_values(|r: Seq<Seq<char>>| line_of(r))
}

/// A table serialized as text: its lines joined with the separator.
pub open spec fn spec_save_text(
    headers: Seq<Seq<char>>,
    rows: Seq<Seq<Seq<char>>>,
    sep: Seq<char>,
) -> Seq<char> {
    join_with(table_lines(headers, rows), sep)
}

/// Joins owned strings with a separator between consecutive parts.
pub fn join_strings(parts: &Vec<String>, sep: &str) -> (r: String)
    ensures
        r@ == join_with(strs(parts@), sep@),
{
    let mut out = String::new();
    let mut k: usize = 0;
    while k < parts.len()
        invariant
            0 <= k <= parts@.len(),
            out@ =~= join_with(strs(parts@).take(k as int), sep@),
        decreases parts@.len() - k,
    {
        let ghost prev = strs(parts@).take(k as int);
        if k > 0 {
            out.append(sep);
        }
        out.append(parts[k].as_str());
        proof {
            lemma_join_push(prev, strs(parts@)[k as int], sep@);
            assert(strs(parts@).take(k as int + 1) =~= prev.push(strs(parts@)[k as int]));
        }
        k += 1;
    }
    assert(strs(parts@).take(parts@.len() as int) =~= strs(parts@));
    out
}

/// Serializes headers and rows as tab-separated lines joined with the
/// requested line ending: a carriage-return/line-feed pair when the name is
/// `"CRLF"`, a line feed otherwise.
pub fn build_save_text(headers: &Vec<String>, rows: &Vec<Vec<String>>, line_ending: &str) -> (r:
    String)
    ensures
        line_ending@ == "CRLF"@ ==> r@ == spec_save_text(
            strs(headers@),
            rows_view(rows@),
            "\r\n"@,
        ),
        line_ending@ != "CRLF"@ ==> r@ == spec_save_text(strs(headers@), rows_view(rows@), "\n"@),
{
    let mut lines: Vec<String> = Vec::new();
    lines.push(join_strings(headers, "\t"));
    proof {
        reveal_strlit("\t");
        assert("\t"@ =~= seq!['\t']);
        assert(strs(lines@) =~= seq![line_of(strs(headers@))]);
    }
    let mut k: usize = 0;
    while k < rows.len()
        invariant
            0 <= k <= rows@.len(),
            strs(lines@) =~= table_lines(strs(headers@), rows_view(rows@).take(k as int)),
        decreases rows@.len() - k,
    {
        let ghost prev = strs(lines@);
        let line = join_strings(&rows[k], "\t");
        proof {
            reveal_strlit("\t");
            assert("\t"@ =~= seq!['\t']);
        }
        lines.push(line);
        proof {
            assert(strs(lines@) =~= prev.push(line_of(rows_view(rows@)[k as int])));
            assert(rows_view(rows@).take(k as int + 1) =~= rows_view(rows@).take(k as int).push(
                rows_view(rows@)[k as int],
            ));
            assert(strs(lines@) =~= table_lines(
                strs(headers@),
                rows_view(rows@).take(k as int + 1),
            ));
        }
        k += 1;
    }
    assert(rows_view(rows@).take(rows@.len() as int) =~= rows_view(rows@));
    let sep = if crate::text::str_eq(line_ending, "CRLF") {
        "\r\n"
    } else {
        "\n"
    };
    join_strings(&lines, sep)
}

/// Every character of the cell is plain content: no tab, no line feed, no
/// carriage return.
pub open spec fn cell_clean(c: Seq<char>) -> bool {
    free_of(c, '\t') && free_of(c, '\n') && free_of(c, '\r')
}

/// All cells of a row are plain content.
pub open spec fn row_clean(r: Seq<Seq<char>>) -> bool {
    forall|k: int| 0 <= k < r.len() ==> cell_clean(#[trigger] r[k])
}

/// A line joined from clean cells contains no line feed and no carriage
/// return.
proof fn lemma_line_clean(cells: Seq<Seq<char>>)
    requires
        row_clean(cells),
    ensures
        free_of(line_of(cells), '\n'),
        free_of(line_of(cells), '\r'),
    decreases cells.len(),
{
    if cells.len() == 0 {
    } else if cells.len() == 1 {
        assert(line_of(cells) == cells[0]);
    } else {
        let rest = cells.skip(1);
        assert(row_clean(rest)) by {
            assert(forall|k: int| 0 <= k < rest.len() ==> rest[k] == cells[k + 1]);
        }
        lemma_line_clean(rest);
        assert(line_of(cells) == cells[0] + seq!['\t'] + line_of(rest));
    }
}

/// Splitting a serialized table at line feeds and dropping carriage returns
/// recovers exactly the serialized lines.
proof fn lemma_records_of_join(lines: Seq<Seq<char>>, sep: Seq<char>)
    requires
        sep == seq!['\n'] || sep == seq!['\r', '\n'],
        lines.len() >= 1,
        forall|k: int| 0 <= k < lines.len() ==> free_of(#[trigger] lines[k], '\n'),
        forall|k: int| 0 <= k < lines.len() ==> free_of(#[trigger] lines[k], '\r'),
        forall|k: int| 0 <= k < lines.len() ==> (#[trigger] lines[k]).len() > 0,
    ensures
        spec_records(join_with(lines, sep)) =~= lines,
    decreases lines.len(),
{
    if lines.len() == 1 {
        let l = lines[0];
        assert(join_with(lines, sep) == l);
        lemma_split_char_whole(l, '\n');
        assert(split_char(l, '\n') =~= seq![l]);
        lemma_logical_records_front(seq![l]);
        assert(strip_cr(l) == l);
        assert(seq![l].skip(1) =~= Seq::<Seq<char>>::empty());
        assert(spec_records(l) =~= seq![l]);
        assert(seq![l] =~= lines);
    } else {
        let rest = lines.skip(1);
        assert(forall|k: int| 0 <= k < rest.len() ==> rest[k] == lines[k + 1]);
        lemma_records_of_join(rest, sep);
        let text = join_with(lines, sep);
        let rest_text = join_with(rest, sep);
        assert(text == lines[0] + sep + rest_text);
        if sep == seq!['\n'] {
            lemma_split_char_step(lines[0], rest_text, '\n');
            assert(lines[0] + sep + rest_text =~= lines[0] + seq!['\n'] + rest_text);
            assert(split_char(text, '\n') =~= seq![lines[0]] + split_char(rest_text, '\n'));
            lemma_logical_records_front(seq![lines[0]] + split_char(rest_text, '\n'));
            assert((seq![lines[0]] + split_char(rest_text, '\n'))[0] == lines[0]);
            assert((seq![lines[0]] + split_char(rest_text, '\n')).skip(1) =~= split_char(
                rest_text,
                '\n',
            ));
            assert(strip_cr(lines[0]) == lines[0]);
            assert(spec_records(text) =~= seq![lines[0]] + spec_records(rest_text));
            assert(seq![lines[0]] + rest =~= lines);
        } else {
            let head = lines[0].push('\r');
            assert(free_of(head, '\n')) by {
                assert(forall|i: int|
                    0 <= i < head.len() ==> head[i] == (if i < lines[0].len() {
                        lines[0][i]
                    } else {
                        '\r'
                    }));
            }
            assert(lines[0] + sep + rest_text =~= head + seq!['\n'] + rest_text);
            lemma_split_char_step(head, rest_text, '\n');
            assert(split_char(text, '\n') =~= seq![head] + split_char(rest_text, '\n'));
            lemma_logical_records_front(seq![head] + split_char(rest_text, '\n'));
            assert((seq![head] + split_char(rest_text, '\n'))[0] == head);
            assert((seq![head] + split_char(rest_text, '\n')).skip(1) =~= split_char(
                rest_text,
                '\n',
            ));
            assert(strip_cr(head) =~= lines[0]) by {
                assert(head.last() == '\r');
                assert(head.drop_last() =~= lines[0]);
            }
            assert(spec_records(text) =~= seq![lines[0]] + spec_records(rest_text));
            assert(seq![lines[0]] + rest =~= lines);
        }
    }
}

/// Round trip: a table whose cells hold no tab, line feed or carriage
/// return, and whose serialized lines are all non-blank, parses back from
/// its serialized text to exactly the same headers and rows — ragged rows
/// included — under either line ending.
pub proof fn lemma_save_parse_round_trip(
    headers: Seq<Seq<char>>,
    rows: Seq<Seq<Seq<char>>>,
    sep: Seq<char>,
)
    requires
        sep == seq!['\n'] || sep == seq!['\r', '\n'],
        row_clean(headers),
        forall|k: int| 0 <= k < rows.len() ==> row_clean(#[trigger] rows[k]),
        line_of(headers).len() > 0,
        forall|k: int| 0 <= k < rows.len() ==> line_of(#[trigger] rows[k]).len() > 0,
    ensures
        spec_headers(spec_save_text(headers, rows, sep)) == headers,
        spec_rows(spec_save_text(headers, rows, sep)) == rows,
{
    let lines = table_lines(headers, rows);
    let text = spec_save_text(headers, rows, sep);
    assert(lines[0] == line_of(headers));
    assert(forall|k: int| 0 <= k < rows.len() ==> lines[k + 1] == line_of(#[trigger] rows[k]));
    assert forall|k: int| 0 <= k < lines.len() implies free_of(#[trigger] lines[k], '\n')
        && free_of(lines[k], '\r') && lines[k].len() > 0 by {
        if k == 0 {
            lemma_line_clean(headers);
        } else {
            lemma_line_clean(rows[k - 1]);
            assert(lines[k] == line_of(rows[k - 1]));
        }
    }
    lemma_records_of_join(lines, sep);
    assert(spec_records(text) =~= lines);

    // headers: the first line splits back into the header cells
    assert(headers.len() >= 1) by {
        if headers.len() == 0 {
            assert(line_of(headers).len() == 0);
        }
    }
    lemma_split_of_join(headers, '\t');
    assert(spec_headers(text) =~= headers);

    // rows: every later line splits back into that row's cells
    assert(spec_records(text).skip(1) =~= rows.map_values(|r: Seq<Seq<char>>| line_of(r)));
    assert forall|k: int| 0 <= k < rows.len() implies #[trigger] spec_rows(text)[k] == rows[k] by {
        assert(spec_rows(text)[k] == record_fields(line_of(rows[k])));
        assert(rows[k].len() >= 1) by {
            if rows[k].len() == 0 {
                assert(line_of(rows[k]).len() == 0);
            }
        }
        lemma_split_of_join(rows[k], '\t');
    }
    assert(spec_rows(text) =~= rows);
}

/// Copies a row of cells, preserving its content.
pub fn clone_row(row: &Vec<String>) -> (r: Vec<String>)
    ensures
        strs(r@) =~= strs(row@),
{
    let mut out: Vec<String> = Vec::new();
    let mut k: usize = 0;
    while k < row.len()
        invariant
            0 <= k <= row@.len(),
            strs(out@) =~= strs(row@).take(k as int),
        decreases row@.len() - k,
    {
        let ghost prev = strs(out@);
        out.push(row[k].clone());
        assert(strs(out@) =~= prev.push(strs(row@)[k as int]));
        assert(strs(row@).take(k as int + 1) =~= strs(row@).take(k as int).push(
            strs(row@)[k as int],
        ));
        k += 1;
    }
    assert(strs(row@).take(row@.len() as int) =~= strs(row@));
    out
}

/// Copies a sequence of rows, preserving their content.
pub fn clone_rows(rows: &Vec<Vec<String>>) -> (r: Vec<Vec<String>>)
    ensures
        rows_view(r@) =~= rows_view(rows@),
{
    let mut out: Vec<Vec<String>> = Vec::new();
    let mut k: usize = 0;
    while k < rows.len()
        invariant
            0 <= k <= rows@.len(),
            rows_view(out@) =~= rows_view(rows@).take(k as int),
        decreases rows@.len() - k,
    {
        let ghost prev = rows_view(out@);
        out.push(clone_row(&rows[k]));
        assert(rows_view(out@) =~= prev.push(rows_view(rows@)[k as int]));
        assert(rows_view(rows@).take(k as int + 1) =~= rows_view(rows@).take(k as int).push(
            rows_view(rows@)[k as int],
        ));
        k += 1;
    }
    assert(rows_view(rows@).take(rows@.len() as int) =~= rows_view(rows@));
    out
}

/// Copies file metadata, preserving its content.
pub fn clone_meta(meta: &FileMetadata) -> (r: FileMetadata)
    ensures
        strs(r.headers@) =~= strs(meta.headers@),
        r.encoding@ == meta.encoding@,
        r.path@ == meta.path@,
        r.row_count == meta.row_count,
        r.column_count == meta.column_count,
        r.line_ending@ == meta.line_ending@,
{
    FileMetadata {
        headers: clone_row(&meta.headers),
        encoding: meta.encoding.clone(),
        path: meta.path.clone(),
        row_count: meta.row_count,
        column_count: meta.column_count,
        line_ending: meta.line_ending.clone(),
    }
}

/// Copies a parsed file, preserving its content.
pub fn clone_parsed(p: &ParsedFile) -> (r: ParsedFile)
    ensures
        strs(r.meta.headers@) =~= strs(p.meta.headers@),
        r.meta.encoding@ == p.meta.encoding@,
        r.meta.path@ == p.meta.path@,
        r.meta.row_count == p.meta.row_count,
        r.meta.column_count == p.meta.column_count,
        r.meta.line_ending@ == p.meta.line_ending@,
        rows_view(r.rows@) =~= rows_view(p.rows@),
{
    ParsedFile { meta: clone_meta(&p.meta), rows: clone_rows(&p.rows) }
}

} // verus!
