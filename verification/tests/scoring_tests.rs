use treescout::scoring::{edit_distance, score_path};

fn kw(s: &[&str]) -> Vec<String> {
    s.iter().map(|x| x.to_string()).collect()
}

#[test]
fn exact_stem_match_is_one() {
    let s = score_path("/a/b/昇格.pdf", &kw(&["昇格"]), &[]);
    assert_eq!(s, 1_000_000);
}

#[test]
fn partial_name_match_below_one() {
    let s = score_path("/a/b/2020年昇格試験のご案内.xlsx", &kw(&["昇格"]), &[]);
    assert!(s > 100_000 && s < 1_000_000, "got {s}");
}

#[test]
fn shorter_name_scores_higher() {
    let ss = score_path("/a/昇格試験.docx", &kw(&["昇格"]), &[]);
    let sl = score_path("/a/2020年度第3四半期昇格試験運用FAQ詳細版.docx", &kw(&["昇格"]), &[]);
    assert!(ss > sl, "short {ss} should beat long {sl}");
}

#[test]
fn ancestor_only_match_is_mid() {
    let s = score_path("/users/me/2020年昇格試験のご案内/論文.docx", &kw(&["昇格"]), &[]);
    assert!(s > 100_000 && s < 600_000, "ancestor-only should be mid, got {s}");
}

#[test]
fn no_match_is_floor() {
    let s = score_path("/a/b/readme.txt", &kw(&["昇格"]), &[]);
    assert_eq!(s, 100_000);
}

#[test]
fn empty_keywords_is_zero() {
    let s = score_path("/a/b/昇格.pdf", &[], &[]);
    assert_eq!(s, 0);
}

#[test]
fn extension_bonus_applies() {
    let without = score_path("/a/b/会議資料2024.pdf", &kw(&["資料"]), &[]);
    let with = score_path("/a/b/会議資料2024.pdf", &kw(&["資料"]), &kw(&["pdf"]));
    assert!(with > without, "ext bonus should raise score: {with} vs {without}");
    assert!(with <= 1_000_000);
}

#[test]
fn typo_with_transposition_scores_mid_range() {
    let s = score_path("/a/b/report.docx", &kw(&["reprot"]), &[]);
    assert!(s > 100_000 && s < 600_000, "typo match should be mid-range, got {s}");
}

#[test]
fn unrelated_keyword_stays_at_floor() {
    let s = score_path("/a/b/report.docx", &kw(&["budget"]), &[]);
    assert_eq!(s, 100_000);
}

#[test]
fn deeper_ancestor_decays() {
    let sn = score_path("/a/昇格フォルダ/file.txt", &kw(&["昇格"]), &[]);
    let sf = score_path("/a/昇格フォルダ/x/y/z/file.txt", &kw(&["昇格"]), &[]);
    assert!(sn >= sf, "near {sn} should be >= far {sf}");
}

#[test]
fn exact_values_of_each_rule() {
    // file name holds the keyword at its start: 0.6 + 0.25 * 2/9 + 0.1
    assert_eq!(score_path("/a/昇格試験.docx", &kw(&["昇格"]), &[]), 600_000 + 250_000 * 2 / 9 + 100_000);
    // a transposition typo: 0.3 + 0.25 * 5/6
    assert_eq!(score_path("/a/b/report.docx", &kw(&["reprot"]), &[]), 300_000 + 250_000 * 5 / 6);
    // the nearest folder holds it: 0.5; three levels further: 0.35
    assert_eq!(score_path("/a/昇格フォルダ/file.txt", &kw(&["昇格"]), &[]), 500_000);
    assert_eq!(score_path("/a/昇格フォルダ/x/y/z/file.txt", &kw(&["昇格"]), &[]), 350_000);
    // mean of two keywords, plus the extension bonus, capped at 1.0
    assert_eq!(score_path("/a/b/昇格.pdf", &kw(&["昇格", "zzz"]), &kw(&["PDF"])), 750_000);
    assert_eq!(score_path("/a/b/昇格.pdf", &kw(&["昇格"]), &kw(&["pdf"])), 1_000_000);
}

#[test]
fn edit_distance_values() {
    assert_eq!(edit_distance("", "abc"), 3);
    assert_eq!(edit_distance("abc", ""), 3);
    assert_eq!(edit_distance("kitten", "sitting"), 3);
    assert_eq!(edit_distance("reprot", "report"), 1);
    assert_eq!(edit_distance("ca", "abc"), 3);
    assert_eq!(edit_distance("same", "same"), 0);
}
