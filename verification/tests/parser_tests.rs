use treescout::parser::{parse_query, ParsedQuery};
use treescout::pipeline::preview_query;

#[test]
fn test_date_today() {
    let q = parse_query("今日編集したファイル");
    assert_eq!(q.date_modified, Some("today".to_string()));
}

#[test]
fn test_date_lastweek() {
    let q = parse_query("先週保存したExcelファイル");
    assert_eq!(q.date_modified, Some("lastweek".to_string()));
    assert!(q.extensions.contains(&"xlsx".to_string()));
}

#[test]
fn test_ext_pdf() {
    let q = parse_query("大事なPDFを探して");
    assert!(q.extensions.contains(&"pdf".to_string()));
}

#[test]
fn test_ext_typescript() {
    let q = parse_query("srcフォルダのTypeScriptファイル");
    assert!(q.extensions.iter().any(|e| e == "ts" || e == "tsx"));
}

#[test]
fn test_path_filter() {
    let q = parse_query("src/components のファイル");
    assert_eq!(q.path_filter, Some("src/components".to_string()));
}

#[test]
fn test_size_min() {
    let q = parse_query("10MB以上のファイル");
    assert_eq!(q.min_size, Some(10 * (1 << 20)));
}

#[test]
fn test_everything_query_combined() {
    let q = ParsedQuery {
        keywords: vec!["report".to_string()],
        extensions: vec!["pdf".to_string()],
        path_filter: None,
        min_size: Some(1 << 20),
        max_size: None,
        date_modified: Some("lastweek".to_string()),
    };
    let s = q.to_everything_query();
    assert!(s.contains("ext:pdf"));
    assert!(s.contains("dm:lastweek"));
    assert!(s.contains("size:>"));
    assert!(s.contains("rep"));
}

#[test]
fn test_everything_term_truncates_long_keyword() {
    let q = ParsedQuery { keywords: vec!["reprot".to_string()], ..Default::default() };
    let s = q.to_everything_query();
    assert_eq!(s, "rep");
}

#[test]
fn test_everything_term_keeps_short_keyword() {
    let q = ParsedQuery { keywords: vec!["foo".to_string()], ..Default::default() };
    let s = q.to_everything_query();
    assert_eq!(s, "foo");
}

#[test]
fn test_everything_term_transposition_typo_survives_filter() {
    let q = ParsedQuery { keywords: vec!["reprot".to_string()], ..Default::default() };
    let term = q.to_everything_query();
    assert!("report".contains(&term), "term={term} should be substring of report");
}

#[test]
fn test_direct_syntax_ext() {
    let q = parse_query("ext:rs,toml path:src/ modified:lastweek");
    assert!(q.extensions.contains(&"rs".to_string()));
    assert!(q.extensions.contains(&"toml".to_string()));
    assert!(q.path_filter.is_some());
}

#[test]
fn preview_query_parses_japanese() {
    let (parsed, ev) = preview_query("先週のPDFファイル");
    assert_eq!(parsed.date_modified, Some("lastweek".to_string()));
    assert!(parsed.extensions.contains(&"pdf".to_string()));
    assert!(ev.contains("ext:pdf"));
    assert!(ev.contains("dm:lastweek"));
}

#[test]
fn preview_query_parses_path_filter() {
    let (parsed, ev) = preview_query("src/のTypeScriptファイル");
    assert!(parsed.extensions.iter().any(|e| e == "ts" || e == "tsx"));
    assert!(ev.contains("ext:"));
}

#[test]
fn everything_query_orders_terms_and_quotes_spaces() {
    let q = ParsedQuery {
        keywords: vec!["ab".to_string(), "long keyword".to_string()],
        extensions: vec!["pdf".to_string(), "docx".to_string()],
        path_filter: Some("src/".to_string()),
        min_size: Some(1024),
        max_size: Some(2048),
        date_modified: Some("today".to_string()),
    };
    assert_eq!(
        q.to_everything_query(),
        "ext:pdf,docx path:src/ size:>1024 size:<2048 dm:today ab \"long k\""
    );
}

#[test]
fn empty_query_parses_to_nothing() {
    let q = parse_query("");
    assert_eq!(q, ParsedQuery::default());
    assert_eq!(q.to_everything_query(), "");
}

#[test]
fn size_units_and_directions() {
    let q = parse_query("2 gb over");
    assert_eq!(q.min_size, Some(2 * (1 << 30)));
    let q = parse_query("500 kb under");
    assert_eq!(q.max_size, Some(500 * 1024));
    let q = parse_query("size:>3mb");
    assert_eq!(q.min_size, Some(3 * (1 << 20)));
    let q = parse_query("size:<7");
    assert_eq!(q.max_size, Some(7));
}

#[test]
fn date_direct_syntax() {
    let q = parse_query("dm:2024/01 report");
    assert_eq!(q.date_modified, Some("2024/01".to_string()));
}

#[test]
fn keywords_drop_consumed_words() {
    let q = parse_query("先週 の pdf report");
    assert_eq!(q.keywords, vec!["report".to_string()]);
    let q = parse_query("path:docs/ notes");
    assert_eq!(q.path_filter, Some("docs/".to_string()));
    assert_eq!(q.keywords, vec!["notes".to_string()]);
}

#[test]
fn extensions_are_not_repeated() {
    let q = parse_query("xlsx excel");
    assert_eq!(q.extensions, vec!["xlsx".to_string(), "xls".to_string()]);
}

#[test]
fn http_words_are_not_paths() {
    let q = parse_query("http://example.com/page");
    assert_eq!(q.path_filter, None);
    assert_eq!(q.keywords, vec!["http://example.com/page".to_string()]);
}

#[test]
fn oversized_sizes_are_dropped() {
    let q = parse_query("size:>99999999999gb");
    assert_eq!(q.min_size, None);
    let q = parse_query("99999999999 gb 以上");
    assert_eq!(q.min_size, None);
    let q = parse_query("size:>2gb");
    assert_eq!(q.min_size, Some(2u64 << 30));
}

#[test]
fn path_is_cut_at_the_slash() {
    assert_eq!(parse_query("src/のTypeScript").path_filter, Some("src/".to_string()));
    assert_eq!(parse_query("src/components のファイル").path_filter, Some("src/components".to_string()));
}

#[test]
fn path_marker_in_any_ascii_case() {
    assert_eq!(parse_query("İpath:src").path_filter, Some("src".to_string()));
    assert_eq!(parse_query("PATH:docs report").path_filter, Some("docs".to_string()));
}
