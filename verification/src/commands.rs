//! The operations the host shell invokes, minus their file-system edges:
//! loading a buffer into the cache, serving pages and full tables, closing a
//! file, and preparing and committing a save.

use vstd::prelude::*;
use crate::encoding::{
    contains_crlf, decoded_text_of, detect_and_decode, detect_line_ending, encode,
    encode_outcome, encoding_name_of, known_encoding,
};
use crate::parser::{
    build_save_text, clone_meta, parse_tsv, rows_view, spec_headers, spec_rows, spec_save_text,
    FileMetadata, ParsedFile,
};
use crate::state::{good_view, min_len, sig_matches, FileStore, FilterItem, RowsResult, SortItem};
use crate::text::strs;
use crate::TsvError;

verus! {

/// Decodes and parses a file's raw bytes and caches the table under its
/// path, returning the metadata alone. Never fails: detection always yields
/// an encoding and the reader accepts every text.
pub fn open_file_bytes(store: &mut FileStore, path: &str, bytes: &[u8]) -> (r: Result<
    FileMetadata,
    TsvError,
>)
    requires
        old(store).wf(),
    ensures
        final(store).wf(),
        r matches Ok(m) && {
            let text = decoded_text_of(bytes@);
            &&& strs(m.headers@) == spec_headers(text)
            &&& m.encoding@ == encoding_name_of(bytes@)
            &&& m.path@ == path@
            &&& m.row_count == spec_rows(text).len()
            &&& m.column_count == spec_headers(text).len()
            &&& m.line_ending@ == (if contains_crlf(text) {
                "CRLF"@
            } else {
                "LF"@
            })
        },
        final(store).contains_path(path@),
        ({
            let text = decoded_text_of(bytes@);
            let c = final(store).entry_at(path@);
            &&& strs(c.parsed.meta.headers@) == spec_headers(text)
            &&& rows_view(c.parsed.rows@) == spec_rows(text)
            &&& c.view_indices@.len() == spec_rows(text).len()
            &&& forall|k: int|
                0 <= k < c.view_indices@.len() ==> (#[trigger] c.view_indices@[k]) == k
            &&& c.last_sort_key is None
            &&& c.last_filter_key is None
        }),
        forall|q: Seq<char>|
            q != path@ ==> (#[trigger] final(store).contains_path(q)) == old(
                store,
            ).contains_path(q),
        forall|q: Seq<char>|
            q != path@ && old(store).contains_path(q) ==> (#[trigger] final(store).entry_at(q))
                == old(store).entry_at(q),
{
    let (text, enc) = detect_and_decode(bytes);
    let line_ending = detect_line_ending(text.as_str());
    let parsed = match parse_tsv(text.as_str(), path, enc.as_str(), line_ending) {
        Ok(p) => p,
        Err(e) => {
            return Err(e);
        },
    };
    let metadata = clone_meta(&parsed.meta);
    store.put(String::from_str(path), parsed);
    Ok(metadata)
}

/// Serves one page of a cached file's view: the rows of `[start_row,
/// end_row)` clamped to the post-filter total, in sort order, plus that
/// total. Fails with a not-found error if and only if the path has no entry.
pub fn get_rows(
    store: &mut FileStore,
    path: &str,
    start_row: usize,
    end_row: usize,
    sort_model: &Vec<SortItem>,
    filter_model: &Vec<(String, FilterItem)>,
    quick_filter: &str,
) -> (r: Result<RowsResult, TsvError>)
    requires
        old(store).wf(),
        start_row <= end_row,
    ensures
        final(store).wf(),
        r is Ok <==> old(store).contains_path(path@),
        !old(store).contains_path(path@) ==> r == Err::<RowsResult, TsvError>(TsvError::NotFound)
            && *final(store) == *old(store),
        old(store).contains_path(path@) ==> {
            let c = final(store).entry_at(path@);
            &&& final(store).contains_path(path@)
            &&& c.parsed == old(store).entry_at(path@).parsed
            &&& good_view(c, sort_model@, filter_model@, quick_filter@)
            &&& sig_matches(c, sort_model@, filter_model@, quick_filter@)
            &&& (sig_matches(
                old(store).entry_at(path@),
                sort_model@,
                filter_model@,
                quick_filter@,
            ) ==> c == old(store).entry_at(path@))
            &&& r matches Ok(rr) && {
                let total = c.view_indices@.len() as int;
                let lo = min_len(start_row as int, total);
                let hi = min_len(end_row as int, total);
                &&& rr.last_row == total
                &&& rr.rows@.len() == hi - lo
                &&& forall|k: int|
                    0 <= k < hi - lo ==> rows_view(rr.rows@)[k] == rows_view(
                        c.parsed.rows@,
                    )[c.view_indices@[lo + k] as int]
            }
        },
        forall|q: Seq<char>|
            q != path@ ==> (#[trigger] final(store).contains_path(q)) == old(
                store,
            ).contains_path(q),
        forall|q: Seq<char>|
            q != path@ && old(store).contains_path(q) ==> (#[trigger] final(store).entry_at(q))
                == old(store).entry_at(q),
{
    store.view(path, start_row, end_row, sort_model, filter_model, quick_filter)
}

/// Returns an owned copy of the full cached table for a path. Fails with a
/// not-found error if and only if the path has no entry.
pub fn get_all_rows(store: &FileStore, path: &str) -> (r: Result<ParsedFile, TsvError>)
    requires
        store.wf(),
    ensures
        store.contains_path(path@) <==> r is Ok,
        !store.contains_path(path@) <==> r == Err::<ParsedFile, TsvError>(TsvError::NotFound),
        r matches Ok(p) ==> {
            let c = store.entry_at(path@);
            &&& strs(p.meta.headers@) == strs(c.parsed.meta.headers@)
            &&& rows_view(p.rows@) == rows_view(c.parsed.rows@)
            &&& p.meta.row_count == c.parsed.meta.row_count
            &&& p.meta.column_count == c.parsed.meta.column_count
            &&& p.meta.encoding@ == c.parsed.meta.encoding@
            &&& p.meta.line_ending@ == c.parsed.meta.line_ending@
            &&& p.meta.path@ == c.parsed.meta.path@
        },
{
    store.get_all(path)
}

/// Evicts the cache entry for a path, if any; later reads of that path fail
/// with a not-found error until it is loaded again.
pub fn close_file(store: &mut FileStore, path: &str) -> (r: Result<(), TsvError>)
    requires
        old(store).wf(),
    ensures
        final(store).wf(),
        r is Ok,
        !final(store).contains_path(path@),
        forall|q: Seq<char>|
            q != path@ ==> (#[trigger] final(store).contains_path(q)) == old(
                store,
            ).contains_path(q),
        forall|q: Seq<char>|
            q != path@ && old(store).contains_path(q) ==> (#[trigger] final(store).entry_at(q))
                == old(store).entry_at(q),
{
    store.remove(path);
    Ok(())
}

/// Serializes headers and rows as tab-separated lines under the requested
/// line ending and encodes the text into the named encoding. Fails, leaving
/// nothing half-encoded, exactly when the encoding name is unknown or the
/// text holds characters that encoding cannot represent.
pub fn prepare_save(
    headers: &Vec<String>,
    rows: &Vec<Vec<String>>,
    encoding: &str,
    line_ending: &str,
) -> (r: Result<Vec<u8>, TsvError>)
    ensures
        ({
            let sep = if line_ending@ == "CRLF"@ {
                "\r\n"@
            } else {
                "\n"@
            };
            let text = spec_save_text(strs(headers@), rows_view(rows@), sep);
            &&& (!known_encoding(encoding@) <==> r == Err::<Vec<u8>, TsvError>(
                TsvError::UnsupportedEncoding,
            ))
            &&& (known_encoding(encoding@) && encode_outcome(text, encoding@) is None <==> r
                == Err::<Vec<u8>, TsvError>(TsvError::UnencodableCharacters))
            &&& (r is Ok <==> known_encoding(encoding@) && encode_outcome(text, encoding@) is Some)
            &&& (r matches Ok(bytes) ==> encode_outcome(text, encoding@) == Some(bytes@))
            &&& (encoding@ == "UTF-8"@ ==> r is Ok)
        }),
{
    let text = build_save_text(headers, rows, line_ending);
    encode(text.as_str(), encoding)
}

/// Re-seeds the cache entry for a path with freshly saved content, so later
/// reads reflect the save without re-reading the file: the identity view,
/// cleared memoization, and metadata recomputed from the saved table.
pub fn refresh_after_save(
    store: &mut FileStore,
    path: String,
    headers: Vec<String>,
    rows: Vec<Vec<String>>,
    encoding: String,
    line_ending: String,
)
    requires
        old(store).wf(),
    ensures
        final(store).wf(),
        final(store).contains_path(path@),
        ({
            let c = final(store).entry_at(path@);
            &&& strs(c.parsed.meta.headers@) == strs(headers@)
            &&& rows_view(c.parsed.rows@) == rows_view(rows@)
            &&& c.parsed.meta.row_count == rows@.len()
            &&& c.parsed.meta.column_count == headers@.len()
            &&& c.parsed.meta.encoding@ == encoding@
            &&& c.parsed.meta.line_ending@ == line_ending@
            &&& c.view_indices@.len() == rows@.len()
            &&& forall|k: int|
                0 <= k < c.view_indices@.len() ==> (#[trigger] c.view_indices@[k]) == k
            &&& c.last_sort_key is None
            &&& c.last_filter_key is None
        }),
        forall|q: Seq<char>|
            q != path@ ==> (#[trigger] final(store).contains_path(q)) == old(
                store,
            ).contains_path(q),
        forall|q: Seq<char>|
            q != path@ && old(store).contains_path(q) ==> (#[trigger] final(store).entry_at(q))
                == old(store).entry_at(q),
{
    let row_count = rows.len();
    let column_count = headers.len();
    let meta_path = path.clone();
    let parsed = ParsedFile {
        meta: FileMetadata {
            headers,
            encoding,
            path: meta_path,
            row_count,
            column_count,
            line_ending,
        },
        rows,
    };
    store.put(path, parsed);
}

} // verus!
