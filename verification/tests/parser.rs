use tsv_viewer::parser::{build_save_text, parse_tsv};

#[test]
fn parse_basic_tsv() {
    let text = "名前\t年齢\t都市\n田中\t30\t東京\n鈴木\t25\t大阪";
    let result = parse_tsv(text, "/test.tsv", "UTF-8", "LF").unwrap();
    assert_eq!(result.meta.headers, vec!["名前", "年齢", "都市"]);
    assert_eq!(result.rows.len(), 2);
    assert_eq!(result.meta.row_count, 2);
    assert_eq!(result.meta.column_count, 3);
    assert_eq!(result.rows[0], vec!["田中", "30", "東京"]);
}

#[test]
fn parse_ragged_rows_kept() {
    let text = "a\tb\tc\nshort\nlong\t1\t2\t3\t4";
    let result = parse_tsv(text, "/r.tsv", "UTF-8", "LF").unwrap();
    assert_eq!(result.meta.column_count, 3);
    assert_eq!(result.rows[0], vec!["short"]);
    assert_eq!(result.rows[1], vec!["long", "1", "2", "3", "4"]);
}

#[test]
fn parse_crlf_and_blank_lines() {
    let text = "h1\th2\r\nx\ty\r\n\r\nz\tw\r\n";
    let result = parse_tsv(text, "/c.tsv", "UTF-8", "CRLF").unwrap();
    assert_eq!(result.meta.headers, vec!["h1", "h2"]);
    assert_eq!(result.rows, vec![vec!["x", "y"], vec!["z", "w"]]);
}

#[test]
fn round_trip_lf() {
    let headers = vec!["名前".to_string(), "年齢".to_string()];
    let rows = vec![
        vec!["田中".to_string(), "30".to_string()],
        vec!["ragged".to_string()],
        vec!["a".to_string(), "b".to_string(), "c".to_string()],
    ];
    let text = build_save_text(&headers, &rows, "LF");
    let parsed = parse_tsv(&text, "/rt.tsv", "UTF-8", "LF").unwrap();
    assert_eq!(parsed.meta.headers, headers);
    assert_eq!(parsed.rows, rows);
}

#[test]
fn round_trip_crlf() {
    let headers = vec!["a".to_string(), "b".to_string()];
    let rows = vec![vec!["1".to_string(), "2".to_string()], vec!["3".to_string()]];
    let text = build_save_text(&headers, &rows, "CRLF");
    assert_eq!(text, "a\tb\r\n1\t2\r\n3");
    let parsed = parse_tsv(&text, "/rt2.tsv", "UTF-8", "CRLF").unwrap();
    assert_eq!(parsed.meta.headers, headers);
    assert_eq!(parsed.rows, rows);
}
