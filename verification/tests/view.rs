use tsv_viewer::commands::{
    close_file, get_all_rows, get_rows, open_file_bytes, prepare_save, refresh_after_save,
};
use tsv_viewer::state::{FileStore, FilterItem, SortItem};
use tsv_viewer::TsvError;

fn sort_item(col: &str, dir: &str) -> SortItem {
    SortItem { col_id: col.to_string(), sort: dir.to_string() }
}

fn filter_item(col: &str, op: &str, operand: &str) -> (String, FilterItem) {
    (
        col.to_string(),
        FilterItem {
            filter_type: "text".to_string(),
            filter_op: op.to_string(),
            filter: operand.to_string(),
        },
    )
}

fn load(store: &mut FileStore, path: &str, text: &str) {
    let meta = open_file_bytes(store, path, text.as_bytes()).unwrap();
    assert_eq!(meta.path, path);
}

#[test]
fn numeric_sort_ascending() {
    // sort by 年齢 ascending compares numerically: 25 before 30
    let mut store = FileStore::new();
    load(&mut store, "/t.tsv", "名前\t年齢\n田中\t30\n鈴木\t25");
    let sorts = vec![sort_item("年齢", "asc")];
    let r = get_rows(&mut store, "/t.tsv", 0, 10, &sorts, &vec![], "").unwrap();
    assert_eq!(r.last_row, 2);
    assert_eq!(r.rows[0], vec!["鈴木", "25"]);
    assert_eq!(r.rows[1], vec!["田中", "30"]);
}

#[test]
fn numeric_sort_descending_and_strings() {
    let mut store = FileStore::new();
    load(&mut store, "/n.tsv", "v\n10\n9\n2.50\n2.5\napple\nApple");
    let sorts = vec![sort_item("v", "asc")];
    let r = get_rows(&mut store, "/n.tsv", 0, 10, &sorts, &vec![], "").unwrap();
    // numbers by value (2.5 == 2.50 tie keeps row order), then strings ordinally
    assert_eq!(r.rows[0], vec!["2.50"]);
    assert_eq!(r.rows[1], vec!["2.5"]);
    assert_eq!(r.rows[2], vec!["9"]);
    assert_eq!(r.rows[3], vec!["10"]);
    assert_eq!(r.rows[4], vec!["Apple"]);
    assert_eq!(r.rows[5], vec!["apple"]);
    let sorts_desc = vec![sort_item("v", "desc")];
    let r2 = get_rows(&mut store, "/n.tsv", 0, 2, &sorts_desc, &vec![], "").unwrap();
    assert_eq!(r2.rows[0], vec!["apple"]);
}

#[test]
fn filter_contains_city() {
    // only the 田中 row holds 東京 in 都市
    let mut store = FileStore::new();
    load(&mut store, "/f.tsv", "名前\t都市\n田中\t東京\n鈴木\t大阪");
    let filters = vec![filter_item("都市", "contains", "東京")];
    let r = get_rows(&mut store, "/f.tsv", 0, 10, &vec![], &filters, "").unwrap();
    assert_eq!(r.last_row, 1);
    assert_eq!(r.rows, vec![vec!["田中", "東京"]]);
}

#[test]
fn filter_kinds() {
    let mut store = FileStore::new();
    load(&mut store, "/k.tsv", "w\nAlpha\nbeta\n  \nALPHABET");
    let cases: Vec<((&str, &str), usize)> = vec![
        (("equals", "alpha"), 1),
        (("notEqual", "alpha"), 3),
        (("startsWith", "ALPHA"), 2),
        (("endsWith", "BET"), 1),
        (("contains", "a"), 3),
        (("notContains", "a"), 1),
        (("blank", ""), 1),
        (("notBlank", ""), 3),
    ];
    for ((op, operand), expect) in cases {
        let filters = vec![filter_item("w", op, operand)];
        let r = get_rows(&mut store, "/k.tsv", 0, 10, &vec![], &filters, "").unwrap();
        assert_eq!(r.last_row, expect, "op {op}");
    }
}

#[test]
fn quick_filter_case_insensitive() {
    let mut store = FileStore::new();
    load(&mut store, "/q.tsv", "a\tb\nHello\tx\ny\tWORLD\nz\tw");
    let r = get_rows(&mut store, "/q.tsv", 0, 10, &vec![], &vec![], "world").unwrap();
    assert_eq!(r.last_row, 1);
    assert_eq!(r.rows[0], vec!["y", "WORLD"]);
}

#[test]
fn unresolved_filter_column_is_skipped() {
    let mut store = FileStore::new();
    load(&mut store, "/u.tsv", "a\n1\n2");
    let filters = vec![filter_item("gone", "equals", "1")];
    let r = get_rows(&mut store, "/u.tsv", 0, 10, &vec![], &filters, "").unwrap();
    assert_eq!(r.last_row, 2);
}

#[test]
fn positional_column_reference() {
    let mut store = FileStore::new();
    load(&mut store, "/p.tsv", "a\tb\nx\t1\ny\t2");
    let filters = vec![filter_item("1", "equals", "2")];
    let r = get_rows(&mut store, "/p.tsv", 0, 10, &vec![], &filters, "").unwrap();
    assert_eq!(r.rows, vec![vec!["y", "2"]]);
}

#[test]
fn unresolved_sort_column_falls_back_to_first() {
    // a stale sort reference neither names a header nor parses as a
    // position: it sorts by column 0 (inherited behavior, covered on purpose)
    let mut store = FileStore::new();
    load(&mut store, "/s.tsv", "a\tb\n2\tx\n1\ty");
    let sorts = vec![sort_item("missing", "asc")];
    let r = get_rows(&mut store, "/s.tsv", 0, 10, &sorts, &vec![], "").unwrap();
    assert_eq!(r.rows[0], vec!["1", "y"]);
    assert_eq!(r.rows[1], vec!["2", "x"]);
}

#[test]
fn pagination_clamps() {
    let mut store = FileStore::new();
    load(&mut store, "/g.tsv", "h\nr0\nr1\nr2");
    let r = get_rows(&mut store, "/g.tsv", 2, 10, &vec![], &vec![], "").unwrap();
    assert_eq!(r.last_row, 3);
    assert_eq!(r.rows, vec![vec!["r2"]]);
    let r2 = get_rows(&mut store, "/g.tsv", 5, 9, &vec![], &vec![], "").unwrap();
    assert_eq!(r2.rows.len(), 0);
    assert_eq!(r2.last_row, 3);
}

#[test]
fn get_page_idempotent() {
    let mut store = FileStore::new();
    load(&mut store, "/i.tsv", "v\n3\n1\n2");
    let sorts = vec![sort_item("v", "asc")];
    let filters = vec![filter_item("v", "notEqual", "2")];
    let a = get_rows(&mut store, "/i.tsv", 0, 10, &sorts, &filters, "x").unwrap();
    let b = get_rows(&mut store, "/i.tsv", 0, 10, &sorts, &filters, "x").unwrap();
    assert_eq!(a.rows, b.rows);
    assert_eq!(a.last_row, b.last_row);
}

#[test]
fn not_found_and_close() {
    let mut store = FileStore::new();
    let r = get_rows(&mut store, "/none.tsv", 0, 10, &vec![], &vec![], "");
    assert_eq!(r.unwrap_err(), TsvError::NotFound);
    load(&mut store, "/c.tsv", "h\nr");
    assert!(get_all_rows(&store, "/c.tsv").is_ok());
    close_file(&mut store, "/c.tsv").unwrap();
    assert_eq!(get_all_rows(&store, "/c.tsv").unwrap_err(), TsvError::NotFound);
}

#[test]
fn get_all_rows_returns_table() {
    let mut store = FileStore::new();
    load(&mut store, "/a.tsv", "h1\th2\nx\ty");
    let p = get_all_rows(&store, "/a.tsv").unwrap();
    assert_eq!(p.meta.headers, vec!["h1", "h2"]);
    assert_eq!(p.rows, vec![vec!["x", "y"]]);
}

#[test]
fn save_unencodable_emoji_fails() {
    // Shift_JIS cannot represent the emoji: the save fails before any byte
    // is produced, so nothing is written and the cache is untouched
    let headers = vec!["h".to_string()];
    let rows = vec![vec!["😀".to_string()]];
    let r = prepare_save(&headers, &rows, "Shift_JIS", "LF");
    assert_eq!(r.unwrap_err(), TsvError::UnencodableCharacters);
}

#[test]
fn save_and_refresh_cache() {
    let mut store = FileStore::new();
    load(&mut store, "/w.tsv", "h\nold");
    let headers = vec!["h".to_string()];
    let rows = vec![vec!["new".to_string()]];
    let bytes = prepare_save(&headers, &rows, "UTF-8", "CRLF").unwrap();
    assert_eq!(bytes, b"h\r\nnew".to_vec());
    refresh_after_save(
        &mut store,
        "/w.tsv".to_string(),
        headers,
        rows,
        "UTF-8".to_string(),
        "CRLF".to_string(),
    );
    let p = get_all_rows(&store, "/w.tsv").unwrap();
    assert_eq!(p.rows, vec![vec!["new"]]);
    assert_eq!(p.meta.line_ending, "CRLF");
}

#[test]
fn numeric_sort_exponents_and_negatives() {
    let mut store = FileStore::new();
    load(&mut store, "/e.tsv", "v\n1e3\n-2\n0.5\n-0.0\n250\n+3");
    let sorts = vec![sort_item("v", "asc")];
    let r = get_rows(&mut store, "/e.tsv", 0, 10, &sorts, &vec![], "").unwrap();
    let first: Vec<&str> = r.rows.iter().map(|row| row[0].as_str()).collect();
    assert_eq!(first, vec!["-2", "-0.0", "0.5", "+3", "250", "1e3"]);
}

#[test]
fn sort_tie_break_chain() {
    let mut store = FileStore::new();
    load(&mut store, "/tb.tsv", "g\tv\nb\t1\na\t2\na\t1");
    let sorts = vec![sort_item("g", "asc"), sort_item("v", "desc")];
    let r = get_rows(&mut store, "/tb.tsv", 0, 10, &sorts, &vec![], "").unwrap();
    assert_eq!(r.rows[0], vec!["a", "2"]);
    assert_eq!(r.rows[1], vec!["a", "1"]);
    assert_eq!(r.rows[2], vec!["b", "1"]);
}

#[test]
fn open_bom_file_reports_utf8() {
    let mut store = FileStore::new();
    let mut bytes = vec![0xEF, 0xBB, 0xBF];
    bytes.extend_from_slice("a\tb\n1\t2".as_bytes());
    let meta = open_file_bytes(&mut store, "/bom.tsv", &bytes).unwrap();
    assert_eq!(meta.encoding, "UTF-8");
    assert_eq!(meta.headers, vec!["a", "b"]);
    assert_eq!(meta.row_count, 1);
}

#[test]
fn open_empty_file() {
    let mut store = FileStore::new();
    let meta = open_file_bytes(&mut store, "/empty.tsv", b"").unwrap();
    assert_eq!(meta.row_count, 0);
    assert_eq!(meta.column_count, 0);
    assert_eq!(meta.line_ending, "LF");
}

#[test]
fn quick_filter_and_column_filter_combine() {
    let mut store = FileStore::new();
    load(&mut store, "/cb.tsv", "a\tb\nfoo\t1\nfoo\t2\nbar\t1");
    let filters = vec![filter_item("b", "equals", "1")];
    let r = get_rows(&mut store, "/cb.tsv", 0, 10, &vec![], &filters, "FOO").unwrap();
    assert_eq!(r.last_row, 1);
    assert_eq!(r.rows[0], vec!["foo", "1"]);
}

#[test]
fn sort_keeps_tied_rows_in_row_order() {
    let mut store = FileStore::new();
    load(&mut store, "/st.tsv", "k\tv\nsame\t1\nsame\t2\nsame\t3");
    let sorts = vec![sort_item("k", "asc")];
    let r = get_rows(&mut store, "/st.tsv", 0, 10, &sorts, &vec![], "").unwrap();
    assert_eq!(r.rows[0], vec!["same", "1"]);
    assert_eq!(r.rows[1], vec!["same", "2"]);
    assert_eq!(r.rows[2], vec!["same", "3"]);
}

#[test]
fn encode_utf8_never_fails() {
    let r = tsv_viewer::encoding::encode("任意の文字😀\u{10FFFF}", "UTF-8").unwrap();
    assert_eq!(r, "任意の文字😀\u{10FFFF}".as_bytes().to_vec());
}
