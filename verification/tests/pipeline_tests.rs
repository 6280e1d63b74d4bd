use treescout::engine::{AstarConfig, ExploreCallback, NoopCallback};
use treescout::pipeline::{run_with_paths, PipelineConfig};
use treescout::tune::default_eval_cases;

fn pb(s: &str) -> String {
    s.to_string()
}

fn dummy_heuristic(path: &String) -> i64 {
    if path.contains("components") {
        900_000
    } else {
        300_000
    }
}

fn dummy_scorer(path: &String) -> i64 {
    let name = path.rsplit('/').next().unwrap_or("");
    if name.contains("Button") {
        950_000
    } else {
        400_000
    }
}

#[test]
fn button_scores_highest() {
    let paths = vec![pb("/src/components/Button.tsx"), pb("/src/components/Input.tsx"), pb("/src/hooks/useButton.ts")];
    let config = AstarConfig { top_k: 3, lambda: 0, mu: 0, ..Default::default() };
    let mut cb = NoopCallback::new();
    let results = run_with_paths(&config, &paths, dummy_heuristic, dummy_scorer, &mut cb);
    assert_eq!(results[0].path.rsplit('/').next().unwrap(), "Button.tsx");
}

#[test]
fn empty_paths_returns_empty() {
    let config = AstarConfig::default();
    let mut cb = NoopCallback::new();
    let results = run_with_paths(&config, &[], dummy_heuristic, dummy_scorer, &mut cb);
    assert!(results.is_empty());
}

struct EventCounter {
    dirs: usize,
    files: usize,
}

impl ExploreCallback for EventCounter {
    fn on_open_dir(&mut self, _: &str, _: i64) {
        self.dirs += 1;
    }
    fn on_skip_dir(&mut self, _: &str, _: i64) {}
    fn on_found_file(&mut self, _: &str, _: i64) {
        self.files += 1;
    }
}

#[test]
fn callback_receives_explore_events() {
    let paths = vec![pb("/root/a/x.txt"), pb("/root/a/y.txt"), pb("/root/b/z.txt")];
    let config = AstarConfig { top_k: 10, lambda: 0, mu: 0, ..Default::default() };
    let mut cb = EventCounter { dirs: 0, files: 0 };
    let results = run_with_paths(&config, &paths, |_: &String| 500_000, |_: &String| 500_000, &mut cb);
    assert_eq!(results.len(), 3);
    assert!(cb.files == 3);
    assert!(cb.dirs >= 1);
}

#[test]
fn pipeline_defaults() {
    let c = PipelineConfig::default();
    assert_eq!(c.everything_max, 1000);
    assert_eq!(c.astar.top_k, 20);
}

#[test]
fn eval_cases_are_built_in() {
    let cases = default_eval_cases();
    assert_eq!(cases.len(), 4);
    let names: Vec<&str> = cases.iter().map(|c| c.name.as_str()).collect();
    assert_eq!(names, vec!["shallow_relevant", "deep_relevant", "spread_relevant", "needle_in_haystack"]);
    assert_eq!(cases[0].paths.len(), 7);
    assert_eq!(cases[2].top_k, 4);
    assert_eq!(cases[3].relevant, vec!["/project/src/core/config.rs".to_string()]);
    for c in &cases {
        for r in &c.relevant {
            assert!(c.paths.contains(r));
        }
    }
}

#[test]
fn run_with_paths_returns_top_k() {
    let paths = vec![
        pb("/src/components/Button.tsx"),
        pb("/src/components/Input.tsx"),
        pb("/src/hooks/useButton.ts"),
        pb("/src/utils/format.ts"),
    ];
    let config = AstarConfig { top_k: 2, lambda: 0, mu: 0, ..Default::default() };
    let mut cb = NoopCallback::new();
    let results = run_with_paths(&config, &paths, dummy_heuristic, dummy_scorer, &mut cb);
    // `top_k` does not cut the results: every candidate comes back, best first.
    assert_eq!(results.len(), 4);
    assert!(results[0].score >= results[1].score);
}
