use treescout::engine::{sort_by_score_desc, AstarConfig, AstarEngine, ExploreCallback, NoopCallback, SearchResult};
use treescout::tree::VirtualTree;

fn pb(s: &str) -> String {
    s.to_string()
}

fn heuristic(path: &String) -> i64 {
    if path.contains("components") {
        900_000
    } else {
        100_000
    }
}

fn file_name(path: &str) -> &str {
    path.rsplit('/').next().unwrap_or("")
}

fn scorer(path: &String) -> i64 {
    if file_name(path).contains("Button") {
        970_000
    } else {
        300_000
    }
}

fn build_tree() -> VirtualTree {
    VirtualTree::from_paths(&[
        pb("/src/components/Button.tsx"),
        pb("/src/components/Input.tsx"),
        pb("/src/hooks/useButton.ts"),
        pb("/src/utils/format.ts"),
    ])
}

#[test]
fn phase1_results_are_returned_in_full_regardless_of_top_k() {
    let tree = build_tree();
    let config = AstarConfig { top_k: 2, ..Default::default() };
    let engine = AstarEngine::new(config, heuristic, scorer);
    let results = engine.search(&tree, &mut NoopCallback::new());
    assert_eq!(results.len(), 4);
    assert!(results[0].score >= results[1].score);
    assert!(results.iter().all(|r| r.in_phase1));
}

#[test]
fn button_file_has_highest_score() {
    let tree = build_tree();
    let config = AstarConfig { top_k: 4, lambda: 0, mu: 0, ..Default::default() };
    let engine = AstarEngine::new(config, heuristic, scorer);
    let results = engine.search(&tree, &mut NoopCallback::new());
    assert_eq!(file_name(&results[0].path), "Button.tsx");
    assert_eq!(results[0].score, 970_000);
}

#[test]
fn lambda_zero_finds_all_files() {
    let tree = build_tree();
    let config = AstarConfig { top_k: 10, lambda: 0, mu: 0, ..Default::default() };
    let engine = AstarEngine::new(config, heuristic, scorer);
    let results = engine.search(&tree, &mut NoopCallback::new());
    assert_eq!(results.len(), 4);
}

struct Counter {
    dirs: usize,
    files: usize,
}

impl ExploreCallback for Counter {
    fn on_open_dir(&mut self, _: &str, _: i64) {
        self.dirs += 1;
    }
    fn on_skip_dir(&mut self, _: &str, _: i64) {
        self.dirs += 1;
    }
    fn on_found_file(&mut self, _: &str, _: i64) {
        self.files += 1;
    }
}

#[test]
fn callback_receives_events() {
    let tree = build_tree();
    let config = AstarConfig { top_k: 10, lambda: 0, mu: 0, ..Default::default() };
    let engine = AstarEngine::new(config, heuristic, scorer);
    let mut cb = Counter { dirs: 0, files: 0 };
    engine.search(&tree, &mut cb);
    assert_eq!(cb.files, 4);
    assert!(cb.dirs > 0);
}

struct DirCollector {
    opened: Vec<String>,
}

impl ExploreCallback for DirCollector {
    fn on_open_dir(&mut self, path: &str, _: i64) {
        self.opened.push(path.to_string());
    }
    fn on_skip_dir(&mut self, _: &str, _: i64) {}
    fn on_found_file(&mut self, _: &str, _: i64) {}
}

#[test]
fn expand_explores_extra_dirs_without_affecting_phase1_results() {
    let tree = build_tree().with_extra_folders(&[
        pb("/src/components"),
        pb("/src/hooks"),
        pb("/src/utils"),
        pb("/src/extra"),
    ]);
    let config = AstarConfig { lambda: 0, mu: 0, ..Default::default() };
    let engine = AstarEngine::new(config, heuristic, scorer);
    let mut cb = DirCollector { opened: vec![] };
    let results = engine.search(&tree, &mut cb);
    assert_eq!(results.iter().filter(|r| r.in_phase1).count(), 4);
    assert!(cb.opened.contains(&pb("/src/extra")));
}

#[test]
fn default_config_values() {
    let c = AstarConfig::default();
    assert_eq!(c.lambda, 100_000);
    assert_eq!(c.mu, 1_000);
    assert_eq!(c.top_k, 20);
    assert_eq!(c.suggest_threshold, 600_000);
    assert_eq!(c.k_suggest, 10);
}

#[test]
fn nested_candidate_hides_the_one_below() {
    // "/a/b" is a candidate file and a tree ancestor of "/a/b/c": the search
    // scores "/a/b" and never opens it, so "/a/b/c" is not reached.
    let tree = VirtualTree::from_paths(&[pb("/a/b"), pb("/a/b/c")]);
    let engine = AstarEngine::new(AstarConfig::default(), |_: &String| 0, |_: &String| 1);
    let results = engine.search(&tree, &mut NoopCallback::new());
    assert_eq!(results.len(), 1);
    assert_eq!(results[0].path, "/a/b");
}

#[test]
fn every_candidate_is_returned_once_with_its_score() {
    let paths = vec![pb("/x/a/1.txt"), pb("/x/a/2.txt"), pb("/x/b/3.txt"), pb("/y/c/4.txt"), pb("/x/a/1.txt")];
    let tree = VirtualTree::from_paths(&paths);
    let engine = AstarEngine::new(AstarConfig::default(), |_: &String| 500_000, |p: &String| p.len() as i64);
    let results = engine.search(&tree, &mut NoopCallback::new());
    assert_eq!(results.len(), 4);
    for p in ["/x/a/1.txt", "/x/a/2.txt", "/x/b/3.txt", "/y/c/4.txt"] {
        let r: Vec<&SearchResult> = results.iter().filter(|r| r.path == p).collect();
        assert_eq!(r.len(), 1);
        assert_eq!(r[0].score, p.len() as i64);
    }
    for w in results.windows(2) {
        assert!(w[0].score >= w[1].score);
    }
}

#[test]
fn sort_keeps_order_of_equal_scores() {
    let v = vec![
        SearchResult { path: pb("a"), score: 1, in_phase1: true },
        SearchResult { path: pb("b"), score: 3, in_phase1: true },
        SearchResult { path: pb("c"), score: 1, in_phase1: true },
        SearchResult { path: pb("d"), score: 2, in_phase1: true },
    ];
    let out = sort_by_score_desc(v);
    let order: Vec<&str> = out.iter().map(|r| r.path.as_str()).collect();
    assert_eq!(order, vec!["b", "d", "a", "c"]);
}

struct Recorder {
    opened: Vec<String>,
    found: Vec<(String, i64)>,
}

impl ExploreCallback for Recorder {
    fn on_open_dir(&mut self, path: &str, _: i64) {
        self.opened.push(path.to_string());
    }
    fn on_skip_dir(&mut self, _: &str, _: i64) {}
    fn on_found_file(&mut self, path: &str, score: i64) {
        self.found.push((path.to_string(), score));
    }
}

#[test]
fn results_are_the_found_files_best_first() {
    let tree = build_tree();
    let config = AstarConfig { top_k: 10, lambda: 0, mu: 0, ..Default::default() };
    let engine = AstarEngine::new(config, |_: &String| 500_000, |p: &String| if p.contains("Button") { 900_000 } else { 100_000 });
    let mut rec = Recorder { opened: vec![], found: vec![] };
    let results = engine.search(&tree, &mut rec);
    assert_eq!(results.len(), rec.found.len());
    let mut found = rec.found.clone();
    found.sort_by(|a, b| b.1.cmp(&a.1));
    let got: Vec<(String, i64)> = results.iter().map(|r| (r.path.clone(), r.score)).collect();
    assert_eq!(got, found);
    let mut opened = rec.opened.clone();
    opened.sort();
    opened.dedup();
    assert_eq!(opened.len(), rec.opened.len());
    assert!(rec.opened.iter().all(|d| !tree.is_file(d)));
}
