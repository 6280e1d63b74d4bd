use treescout::engine::{AstarConfig, NoopCallback, SearchResult};
use treescout::everything::{browse_row, query_error, search_record, SearchError};
use treescout::indexing::{batch_ranges, plan_folders, stale_folders, ScannedFolder};
use treescout::listing::{dir_entry, directory_filters, normalize_dir, sort_entries};
use treescout::pipeline::{PipelineConfig, PipelineError, SearchPipeline};
use treescout::semantic::{
    compose_query, lower_keywords, rank_candidates, semantic_config, semantic_results, suggestion_results, systemtime_to_filetime,
    CandidateRecord, UNIX_EPOCH_AS_FILETIME,
};
use treescout::tune::{default_eval_cases, eval_counts};

fn s(x: &str) -> String {
    x.to_string()
}

#[test]
fn query_limited_to_root() {
    assert_eq!(compose_query(s("ext:pdf"), Some(s("C:\\docs"))), "path:\"C:\\docs\" ext:pdf");
    assert_eq!(compose_query(s(""), Some(s("/home"))), "path:\"/home\"");
    assert_eq!(compose_query(s("abc"), Some(s(""))), "abc");
    assert_eq!(compose_query(s("abc"), None), "abc");
}

#[test]
fn semantic_config_defaults() {
    let c = semantic_config(None, None, None);
    assert_eq!((c.top_k, c.lambda, c.mu), (20, 100_000, 1_000));
    let c = semantic_config(Some(5), Some(0), Some(7));
    assert_eq!((c.top_k, c.lambda, c.mu), (5, 0, 7));
    assert_eq!(lower_keywords(&vec![s("ReadMe"), s("ABC")]), vec![s("readme"), s("abc")]);
}

fn rec(p: &str, name: &str) -> CandidateRecord {
    CandidateRecord { path: s(p), name: s(name), ext: s(""), is_dir: false, size: 3, mtime: 0 }
}

#[test]
fn candidates_ranked_by_score() {
    let records = vec![rec("/a/b/readme.txt", "readme.txt"), rec("/a/b/昇格.pdf", "昇格.pdf"), rec("/a/昇格試験.docx", "昇格試験.docx")];
    let ranked = rank_candidates(records, &vec![s("昇格")], &vec![]);
    let order: Vec<&str> = ranked.iter().map(|r| r.name.as_str()).collect();
    assert_eq!(order, vec!["昇格.pdf", "昇格試験.docx", "readme.txt"]);
    assert_eq!(ranked[0].score, 1_000_000);
    assert_eq!(ranked[2].score, 100_000);
    assert!(ranked.iter().all(|r| !r.is_suggestion && r.size == 3));
}

#[test]
fn suggestions_are_results_outside_the_candidates() {
    let astar = vec![
        SearchResult { path: s("/a/x.txt"), score: 10, in_phase1: true },
        SearchResult { path: s("/b/y.md"), score: 20, in_phase1: false },
        SearchResult { path: s("/a/z.txt"), score: 30, in_phase1: false },
    ];
    let out = suggestion_results(&astar, &vec![s("/a/x.txt"), s("/a/z.txt")]);
    assert_eq!(out.len(), 1);
    assert_eq!(out[0].path, "/b/y.md");
    assert_eq!(out[0].name, "y.md");
    assert_eq!(out[0].ext, "md");
    assert_eq!(out[0].score, 20);
    assert!(out[0].is_suggestion);
}

#[test]
fn file_times() {
    assert_eq!(systemtime_to_filetime(true, 0, 0), UNIX_EPOCH_AS_FILETIME);
    assert_eq!(systemtime_to_filetime(true, 1, 250), UNIX_EPOCH_AS_FILETIME + 10_000_000 + 2);
    assert_eq!(systemtime_to_filetime(false, 2, 0), UNIX_EPOCH_AS_FILETIME - 20_000_000);
}

#[test]
fn listing_filters_and_order() {
    let (k, e) = directory_filters(Some(s("   ")));
    assert!(k.is_empty() && e.is_empty());
    let (k, e) = directory_filters(Some(s("Report の PDF")));
    assert_eq!(k, vec![s("report")]);
    assert_eq!(e, vec![s("pdf")]);
    assert_eq!(normalize_dir("C:"), "C:\\");
    assert_eq!(normalize_dir("C:\\x"), "C:\\x");
    assert_eq!(normalize_dir("é:"), "é:");
    let kw = vec![s("report")];
    let ext: Vec<String> = vec![];
    let entries = vec![
        dir_entry(s("b.txt"), s("/d/b.txt"), s("/d"), false, &kw, &ext),
        dir_entry(s("Zdir"), s("/d/Zdir"), s("/d"), true, &kw, &ext),
        dir_entry(s("A.txt"), s("/d/A.txt"), s("/d"), false, &kw, &ext),
        dir_entry(s("adir"), s("/d/adir"), s("/d"), true, &kw, &ext),
    ];
    assert_eq!(entries[0].ext, "txt");
    assert_eq!(entries[1].ext, "");
    let sorted = sort_entries(entries);
    let names: Vec<&str> = sorted.iter().map(|e| e.name.as_str()).collect();
    assert_eq!(names, vec!["adir", "Zdir", "A.txt", "b.txt"]);
}

#[test]
fn listing_ties_keep_their_order() {
    let kw: Vec<String> = vec![];
    let entries = vec![
        dir_entry(s("b.txt"), s("/d/b.txt"), s("/d"), false, &kw, &kw),
        dir_entry(s("B.txt"), s("/e/B.txt"), s("/e"), false, &kw, &kw),
        dir_entry(s("a.txt"), s("/d/a.txt"), s("/d"), false, &kw, &kw),
    ];
    let sorted = sort_entries(entries);
    let paths: Vec<&str> = sorted.iter().map(|e| e.path.as_str()).collect();
    assert_eq!(paths, vec!["/d/a.txt", "/d/b.txt", "/e/B.txt"]);
}

#[test]
fn folder_index_plan() {
    let scans = vec![
        ScannedFolder { path: Some(s("/r")), name: Some(s("r")), mtime: 5, stored_mtime: Some(5) },
        ScannedFolder { path: Some(s("/r/a")), name: Some(s("a")), mtime: 6, stored_mtime: Some(1) },
        ScannedFolder { path: None, name: None, mtime: 0, stored_mtime: None },
        ScannedFolder { path: Some(s("/r/b")), name: None, mtime: 7, stored_mtime: None },
    ];
    let (pending, seen, stats) = plan_folders(&scans);
    assert_eq!((stats.scanned, stats.skipped, stats.updated, stats.removed), (4, 1, 0, 0));
    assert_eq!(seen, vec![s("/r"), s("/r/a"), s("/r/b")]);
    assert_eq!(pending.len(), 2);
    assert_eq!((pending[0].path.as_str(), pending[0].name.as_str(), pending[0].mtime), ("/r/a", "a", 6));
    assert_eq!((pending[1].path.as_str(), pending[1].name.as_str()), ("/r/b", "/r/b"));
    assert_eq!(stale_folders(&vec![s("/r"), s("/gone"), s("/r/b")], &seen), vec![s("/gone")]);
    assert_eq!(batch_ranges(5, 2), vec![(0, 2), (2, 4), (4, 5)]);
    assert_eq!(batch_ranges(3, 0), vec![(0, 1), (1, 2), (2, 3)]);
    assert!(batch_ranges(0, 4).is_empty());
}

#[test]
fn everything_records() {
    let r = search_record(s("a.txt"), s("/d"), true);
    assert_eq!(r.path, "/d/a.txt");
    assert_eq!(r.ext, "txt");
    assert!(!r.is_dir);
    let r = search_record(s("sub"), s("/d"), false);
    assert_eq!(r.ext, "");
    assert!(r.is_dir);
    let b = browse_row("x", "/d", true, -5, 9);
    assert_eq!((b.path.as_str(), b.size, b.mtime, b.is_dir), ("/d/x", 0, 9, false));
    assert!(matches!(query_error(2), SearchError::NotRunning));
    assert!(matches!(query_error(7), SearchError::QueryFailed(7)));
    assert_eq!(SearchError::QueryFailed(7).message(), "クエリ失敗: code=7");
    assert_eq!(SearchError::DllLoad(s("x")).message(), "Everything64.dll のロードに失敗: x");
}

#[test]
fn pipeline_without_everything_finds_nothing() {
    let p = SearchPipeline::new(PipelineConfig::default(), |_: &String| 0, |_: &String| 0);
    assert!(p.run("先週のPDF", &mut NoopCallback::new()).unwrap().is_empty());
    let _ = AstarConfig::default();
}

#[test]
fn pipeline_searches_fetched_candidates() {
    let p = SearchPipeline::new(PipelineConfig::default(), |_: &String| 0, |p: &String| if p.ends_with("b.txt") { 9 } else { 3 });
    let found = p.search_candidates(Ok(vec![s("/r/a.txt"), s("/r/b.txt")]), &mut NoopCallback::new()).unwrap();
    let got: Vec<(&str, i64)> = found.iter().map(|r| (r.path.as_str(), r.score)).collect();
    assert_eq!(got, vec![("/r/b.txt", 9), ("/r/a.txt", 3)]);
    assert!(p.search_candidates(Ok(vec![]), &mut NoopCallback::new()).unwrap().is_empty());
    let e = p.search_candidates(Err(PipelineError::Everything(SearchError::NotRunning)), &mut NoopCallback::new()).unwrap_err();
    assert!(matches!(e, PipelineError::Everything(SearchError::NotRunning)));
    assert!(p.run_parsed(&treescout::parser::parse_query("report"), &mut NoopCallback::new()).unwrap().is_empty());
}

#[test]
fn eval_counts_of_a_result_list() {
    let case = &default_eval_cases()[0];
    let results = vec![
        SearchResult { path: s("/project/src/utils/format.ts"), score: 9, in_phase1: true },
        SearchResult { path: s("/project/src/components/Button.tsx"), score: 8, in_phase1: true },
        SearchResult { path: s("/project/src/components/Modal.tsx"), score: 7, in_phase1: true },
        SearchResult { path: s("/project/src/components/Input.tsx"), score: 6, in_phase1: true },
    ];
    let c = eval_counts(case, &results);
    assert_eq!((c.considered, c.hits, c.first_hit), (3, 2, Some(1)));
    let c = eval_counts(case, &results[..1].to_vec());
    assert_eq!((c.considered, c.hits, c.first_hit), (1, 0, None));
}

#[test]
fn semantic_results_list_candidates_then_suggestions() {
    let rec = |p: &str, n: &str| CandidateRecord { path: s(p), name: s(n), ext: s("txt"), is_dir: false, size: 3, mtime: 0 };
    let astar = vec![
        SearchResult { path: s("/a/x.txt"), score: 10, in_phase1: true },
        SearchResult { path: s("/b/y.md"), score: 20, in_phase1: false },
    ];
    assert!(semantic_results(vec![], &vec![s("x")], &vec![], &astar).is_empty());
    let r = semantic_results(vec![rec("/a/x.txt", "x.txt")], &vec![s("x")], &vec![], &astar);
    assert_eq!(r.len(), 2);
    assert_eq!((r[0].path.as_str(), r[0].is_suggestion), ("/a/x.txt", false));
    assert_eq!((r[1].path.as_str(), r[1].is_suggestion, r[1].score), ("/b/y.md", true, 20));
}
