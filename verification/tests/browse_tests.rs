use treescout::browse::{fetch_window, settle_browse, sort_const, BrowseState};
use treescout::everything::{
    browse, browse_rows, BrowseRecord, path_basename_lower, query_to_wide, sort_browse_rows, current_generation, format_mtime, next_generation, search, BrowseRow, MatchOptions, SearchEpochs, SearchError,
    EVERYTHING_SORT_DATE_MODIFIED_DESCENDING, EVERYTHING_SORT_NAME_ASCENDING, EVERYTHING_SORT_NAME_DESCENDING,
    EVERYTHING_SORT_PATH_ASCENDING, EVERYTHING_SORT_SIZE_ASCENDING, EVERYTHING_SORT_SIZE_DESCENDING,
};

fn row(p: &str, size: u64) -> BrowseRow {
    BrowseRow { path: p.to_string(), is_dir: false, size, mtime: 0 }
}

#[test]
fn sort_constants_by_column() {
    assert_eq!(sort_const("name", true), EVERYTHING_SORT_NAME_ASCENDING);
    assert_eq!(sort_const("folder", true), EVERYTHING_SORT_PATH_ASCENDING);
    assert_eq!(sort_const("size", true), EVERYTHING_SORT_SIZE_ASCENDING);
    assert_eq!(sort_const("date", false), EVERYTHING_SORT_DATE_MODIFIED_DESCENDING);
    assert_eq!(sort_const("other", false), EVERYTHING_SORT_NAME_DESCENDING);
}

#[test]
fn stubs_find_nothing() {
    let mut epochs = SearchEpochs::new();
    assert_eq!(current_generation(&epochs), 0);
    let g1 = next_generation(&mut epochs);
    let g2 = next_generation(&mut epochs);
    assert!(g2 > g1);
    assert_eq!((g1, g2, current_generation(&epochs)), (1, 2, 2));
    assert!(search("x", 10, MatchOptions::default(), 0).unwrap().is_empty());
    assert!(browse("x", 1, 10, MatchOptions::default(), 0, |_n: usize| {}).unwrap().is_empty());
    assert_eq!(format_mtime(123), "");
}

#[test]
fn window_of_snapshot() {
    let state = BrowseState { generation: 7, rows: vec![row("/a/x.txt", 1), row("/a/y", 2), row("/b/z.rs", 3)] };
    let w = fetch_window(&state, 1, 5, 7);
    assert_eq!(w.len(), 2);
    assert_eq!(w[0].name, "y");
    assert_eq!(w[0].folder, "/a");
    assert_eq!(w[0].ext, "");
    assert_eq!(w[1].name, "z.rs");
    assert_eq!(w[1].ext, "rs");
    assert_eq!(w[1].size, 3);
    assert!(fetch_window(&state, 0, 5, 8).is_empty());
    assert!(fetch_window(&state, 3, 5, 7).is_empty());
}

#[test]
fn settling_a_browse() {
    let mut state = BrowseState { generation: 1, rows: vec![row("/old", 1)] };
    let r = settle_browse(&mut state, Ok(vec![row("/n1", 1), row("/n2", 2)]), 2, 2).unwrap();
    assert_eq!((r.total, r.generation), (2, 2));
    assert_eq!(state.generation, 2);
    assert_eq!(state.rows.len(), 2);
    let r = settle_browse(&mut state, Ok(vec![row("/n3", 1)]), 3, 4).unwrap();
    assert_eq!((r.total, r.generation), (0, 3));
    assert_eq!(state.generation, 2);
    let r = settle_browse(&mut state, Err(SearchError::Cancelled), 5, 5).unwrap();
    assert_eq!((r.total, r.generation), (0, 5));
    let e = settle_browse(&mut state, Err(SearchError::Unsupported), 6, 6).unwrap_err();
    assert_eq!(e, "Windows 環境が必要です");
}

#[test]
fn browse_rows_sort_by_each_key() {
    let mk = || vec![row("/b/Zeta.txt", 5), row("/a/alpha.txt", 9), row("/c/Beta.txt", 5)];
    let mut v = mk();
    sort_browse_rows(&mut v, EVERYTHING_SORT_NAME_ASCENDING);
    let names: Vec<&str> = v.iter().map(|r| r.path.as_str()).collect();
    assert_eq!(names, vec!["/a/alpha.txt", "/c/Beta.txt", "/b/Zeta.txt"]);
    let mut v = mk();
    sort_browse_rows(&mut v, EVERYTHING_SORT_SIZE_ASCENDING);
    let names: Vec<&str> = v.iter().map(|r| r.path.as_str()).collect();
    assert_eq!(names, vec!["/b/Zeta.txt", "/c/Beta.txt", "/a/alpha.txt"]);
    let mut v = mk();
    sort_browse_rows(&mut v, EVERYTHING_SORT_NAME_DESCENDING);
    let names: Vec<&str> = v.iter().map(|r| r.path.as_str()).collect();
    assert_eq!(names, vec!["/b/Zeta.txt", "/c/Beta.txt", "/a/alpha.txt"]);
}

#[test]
fn descending_browse_rows_reverse_ties() {
    let mut v = vec![row("/b/Zeta.txt", 5), row("/a/alpha.txt", 9), row("/c/Beta.txt", 5)];
    sort_browse_rows(&mut v, EVERYTHING_SORT_SIZE_DESCENDING);
    let names: Vec<&str> = v.iter().map(|r| r.path.as_str()).collect();
    assert_eq!(names, vec!["/a/alpha.txt", "/c/Beta.txt", "/b/Zeta.txt"]);
}

#[test]
fn queries_become_nul_terminated_utf16() {
    assert_eq!(query_to_wide("  "), vec!['*' as u16, 0]);
    assert_eq!(query_to_wide("a😀"), vec![0x61, 0xD83D, 0xDE00, 0]);
    let expect: Vec<u16> = "ext:pdf 議事録".encode_utf16().chain(std::iter::once(0)).collect();
    assert_eq!(query_to_wide("ext:pdf 議事録"), expect);
}

#[test]
fn basename_is_lowercased_last_component() {
    assert_eq!(path_basename_lower("C:\\Dir\\File.TXT"), "file.txt");
    assert_eq!(path_basename_lower("/a/B"), "b");
    assert_eq!(path_basename_lower("Plain"), "plain");
}

#[test]
fn adjacent_windows_page_through_the_snapshot() {
    let state = BrowseState { generation: 3, rows: vec![row("/a/1", 1), row("/a/2", 2), row("/a/3", 3)] };
    let first = fetch_window(&state, 0, 2, 3);
    let second = fetch_window(&state, 2, 2, 3);
    let both = fetch_window(&state, 0, 4, 3);
    let paged: Vec<String> = first.iter().chain(second.iter()).map(|w| w.path.clone()).collect();
    let whole: Vec<String> = both.iter().map(|w| w.path.clone()).collect();
    assert_eq!(paged, whole);
    assert_eq!(whole, vec!["/a/1".to_string(), "/a/2".to_string(), "/a/3".to_string()]);
}

#[test]
fn records_become_sorted_rows() {
    let recs = vec![
        BrowseRecord { name: "b.txt".to_string(), dir: "/x".to_string(), is_file: true, size: 5, mtime: 0 },
        BrowseRecord { name: "A.txt".to_string(), dir: "/y".to_string(), is_file: true, size: -3, mtime: 1 },
    ];
    let rows = browse_rows(&recs, EVERYTHING_SORT_NAME_ASCENDING);
    let paths: Vec<&str> = rows.iter().map(|r| r.path.as_str()).collect();
    assert_eq!(paths, vec!["/y/A.txt", "/x/b.txt"]);
    assert_eq!(rows[0].size, 0);
    assert!(!rows[0].is_dir);
}
