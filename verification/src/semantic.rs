//! The two-phase semantic search as the application runs it: compose the
//! Everything query, score every candidate for the result list, and append the
//! suggestions that the tree search found outside the candidates.

use crate::engine::{AstarConfig, SearchResult};
use crate::everything::format_mtime;
use crate::paths::{opt_chars, path_extension, path_file_name, spec_extension, spec_file_name};
use crate::scoring::{score_path, spec_score_path};
use crate::text::{lowercase, push_lit, spec_lowercase, sviews, to_chars, chars_to_string};
use vstd::prelude::*;

verus! {

/// The most folders near the query that the search may open besides the candidates.
pub const EXTRA_FOLDER_TOP_N: usize = 20;

/// An Everything result with the size and date that the result list shows.
#[derive(Debug, Clone)]
pub struct CandidateRecord {
    pub path: String,
    pub name: String,
    pub ext: String,
    pub is_dir: bool,
    pub size: u64,
    pub mtime: i64,
}

/// A result of the semantic search, as the viewer shows it.
#[derive(Debug, Clone)]
pub struct SemanticResult {
    pub path: String,
    pub name: String,
    pub ext: String,
    pub is_dir: bool,
    /// The score, in units of `1 / SCORE_SCALE`.
    pub score: i64,
    /// Found by the tree search outside the candidates.
    pub is_suggestion: bool,
    pub size: u64,
    pub modified: String,
}

/// The Everything query limited to a folder: `path:"<root>"` before the rest,
/// when a non-empty root is given.
pub open spec fn spec_compose_query(query: Seq<char>, root: Option<Seq<char>>) -> Seq<char> {
    match root {
        Some(r) => if r.len() > 0 {
            if query.len() == 0 {
                "path:\""@ + r + "\""@
            } else {
                "path:\""@ + r + "\" "@ + query
            }
        } else {
            query
        },
        None => query,
    }
}

pub fn compose_query(query: String, root_path: Option<String>) -> (r: String)
    ensures
        r@ == spec_compose_query(query@, opt_chars(root_path)),
{
    match root_path {
        Some(root) => {
            if root.as_str().is_empty() {
                return query;
            }
            let mut out = to_chars("path:\"");
            push_lit(&mut out, root.as_str());
            if query.as_str().is_empty() {
                push_lit(&mut out, "\"");
            } else {
                push_lit(&mut out, "\" ");
                push_lit(&mut out, query.as_str());
                assert(out@ =~= "path:\""@ + root@ + "\" "@ + query@);
            }
            chars_to_string(&out)
        },
        None => query,
    }
}

/// The search settings of a semantic search: the given `top_k`, `lambda` and
/// `mu`, else 20, 0.1 and 0.001; the rest default.
pub fn semantic_config(top_k: Option<usize>, lambda: Option<i32>, mu: Option<i32>) -> (c: AstarConfig)
    ensures
        c.top_k == (match top_k { Some(k) => k, None => 20 }),
        c.lambda == (match lambda { Some(l) => l, None => 100_000 }),
        c.mu == (match mu { Some(m) => m, None => 1_000 }),
        c.suggest_threshold == 600_000,
        c.k_suggest == 10,
{
    let d = AstarConfig::default();
    AstarConfig {
        top_k: match top_k {
            Some(k) => k,
            None => 20,
        },
        lambda: match lambda {
            Some(l) => l,
            None => 100_000,
        },
        mu: match mu {
            Some(m) => m,
            None => 1_000,
        },
        ..d
    }
}

/// Each keyword lower-cased.
pub fn lower_keywords(keywords: &Vec<String>) -> (r: Vec<String>)
    ensures
        sviews(r@) == sviews(keywords@).map_values(|k: Seq<char>| spec_lowercase(k)),
{
    let mut out: Vec<String> = Vec::new();
    let mut k: usize = 0;
    while k < keywords.len()
        invariant
            k <= keywords.len(),
            sviews(out@) == sviews(keywords@).map_values(|k: Seq<char>| spec_lowercase(k)).take(k as int),
        decreases keywords.len() - k,
    {
        let l = lowercase(keywords[k].as_str());
        let ghost o0 = sviews(out@);
        out.push(l);
        assert(sviews(out@) =~= o0.push(l@));
        assert(sviews(keywords@).map_values(|k: Seq<char>| spec_lowercase(k)).take(k + 1) =~= o0.push(l@));
        k = k + 1;
    }
    assert(sviews(keywords@).map_values(|k: Seq<char>| spec_lowercase(k)).take(keywords.len() as int)
        =~= sviews(keywords@).map_values(|k: Seq<char>| spec_lowercase(k)));
    out
}

/// Scores never increase along the list.
pub open spec fn semantic_sorted(s: Seq<SemanticResult>) -> bool {
    forall|a: int, b: int| 0 <= a < b < s.len() ==> #[trigger] s[a].score >= #[trigger] s[b].score
}

/// `r` is the record shown with its score for the keywords and extensions.
pub open spec fn shows_record(r: SemanticResult, c: CandidateRecord, keywords: Seq<Seq<char>>, extensions: Seq<Seq<char>>) -> bool {
    &&& r.path == c.path
    &&& r.name == c.name
    &&& r.ext == c.ext
    &&& r.is_dir == c.is_dir
    &&& r.score == spec_score_path(c.path@, keywords, extensions)
    &&& !r.is_suggestion
    &&& r.size == c.size
    &&& r.modified@ == Seq::<char>::empty()
}

/// Inserts `x` after every result that scores at least as high.
fn insert_by_score(out: &mut Vec<SemanticResult>, x: SemanticResult)
    requires
        semantic_sorted(old(out)@),
    ensures
        semantic_sorted(final(out)@),
        exists|p: int|
            0 <= p <= old(out)@.len() && final(out)@ == old(out)@.insert(p, x) && forall|k: int|
                p <= k < old(out)@.len() ==> #[trigger] old(out)@[k].score < x.score,
{
    let mut pos: usize = 0;
    while pos < out.len() && out[pos].score >= x.score
        invariant
            pos <= out.len(),
            forall|a: int| 0 <= a < pos ==> out@[a].score >= x.score,
        decreases out.len() - pos,
    {
        pos = pos + 1;
    }
    let ghost o0 = out@;
    out.insert(pos, x);
    proof {
        assert(out@ == o0.insert(pos as int, x));
        assert forall|a: int, b: int| 0 <= a < b < out@.len() implies #[trigger] out@[a].score >= #[trigger] out@[b].score by {
            if b < pos {
                assert(out@[a] == o0[a] && out@[b] == o0[b]);
            } else if b == pos {
                assert(out@[a] == o0[a]);
            } else if a < pos {
                assert(out@[a] == o0[a] && out@[b] == o0[b - 1]);
            } else if a == pos {
                assert(out@[b] == o0[b - 1]);
                if (pos as int) < o0.len() {
                    assert(o0[pos as int].score < x.score);
                }
            } else {
                assert(out@[a] == o0[a - 1] && out@[b] == o0[b - 1]);
            }
        }
        assert forall|k: int| pos <= k < o0.len() implies #[trigger] o0[k].score < x.score by {
            assert(o0[pos as int].score < x.score);
        }
    }
}

/// `r` lists every record with its score for the keywords and extensions,
/// highest score first, equal scores in the records' order.
pub open spec fn ranks_records(r: Seq<SemanticResult>, records: Seq<CandidateRecord>, keywords: Seq<Seq<char>>, extensions: Seq<Seq<char>>) -> bool {
    &&& r.len() == records.len()
    &&& semantic_sorted(r)
    &&& exists|perm: Seq<int>| #[trigger] perm.len() == records.len()
        && (forall|i: int| 0 <= i < perm.len() ==> 0 <= #[trigger] perm[i] < records.len())
        && (forall|i: int, j: int|
            0 <= i < j < perm.len() ==> #[trigger] perm[i] != #[trigger] perm[j] && (r[i].score == r[j].score
                ==> perm[i] < perm[j]))
        && forall|i: int| 0 <= i < r.len() ==> #[trigger] shows_record(r[i], records[perm[i]], keywords, extensions)
}

/// Every candidate with its score for the keywords and extensions, highest
/// score first (equal scores keep their order).
pub fn rank_candidates(records: Vec<CandidateRecord>, keywords: &Vec<String>, extensions: &Vec<String>) -> (r: Vec<SemanticResult>)
    ensures
        ranks_records(r@, records@, sviews(keywords@), sviews(extensions@)),
{
    let ghost orig = records@;
    let mut out: Vec<SemanticResult> = Vec::new();
    let ghost mut perm: Seq<int> = Seq::empty();
    let mut rest = records;
    let ghost mut i: int = 0;
    assert(orig.skip(0) =~= orig);
    while rest.len() > 0
        invariant
            0 <= i <= orig.len(),
            rest@ == orig.skip(i),
            out.len() == i,
            semantic_sorted(out@),
            perm.len() == out.len(),
            forall|k: int| 0 <= k < perm.len() ==> 0 <= #[trigger] perm[k] < i,
            forall|a: int, b: int|
                0 <= a < b < perm.len() ==> #[trigger] perm[a] != #[trigger] perm[b] && (out@[a].score == out@[b].score
                    ==> perm[a] < perm[b]),
            forall|k: int| 0 <= k < out.len() ==> #[trigger] shows_record(out@[k], orig[perm[k]], sviews(keywords@), sviews(extensions@)),
        decreases rest.len(),
    {
        let c = rest.remove(0);
        proof {
            assert(c == orig[i]);
            assert(rest@ =~= orig.skip(i + 1));
        }
        let score = score_path(c.path.as_str(), keywords.as_slice(), extensions.as_slice());
        let x = SemanticResult {
            path: c.path,
            name: c.name,
            ext: c.ext,
            is_dir: c.is_dir,
            score,
            is_suggestion: false,
            size: c.size,
            modified: format_mtime(c.mtime),
        };
        let ghost o0 = out@;
        insert_by_score(&mut out, x);
        proof {
            let p = choose|p: int|
                0 <= p <= o0.len() && out@ == o0.insert(p, x) && forall|k: int|
                    p <= k < o0.len() ==> #[trigger] o0[k].score < x.score;
            let np = perm.insert(p, i);
            assert forall|k: int| 0 <= k < np.len() implies 0 <= #[trigger] np[k] < i + 1 by {
                if k < p {
                    assert(np[k] == perm[k]);
                } else if k > p {
                    assert(np[k] == perm[k - 1]);
                }
            }
            assert forall|a: int, b: int| 0 <= a < b < np.len() implies #[trigger] np[a] != #[trigger] np[b] && (
            out@[a].score == out@[b].score ==> np[a] < np[b]) by {
                let pa = if a < p { perm[a] } else if a == p { i } else { perm[a - 1] };
                let pb = if b < p { perm[b] } else if b == p { i } else { perm[b - 1] };
                assert(np[a] == pa && np[b] == pb);
                if a != p && b != p {
                    let a0 = if a < p { a } else { a - 1 };
                    let b0 = if b < p { b } else { b - 1 };
                    assert(out@[a] == o0[a0] && out@[b] == o0[b0]);
                    assert(perm[a0] != perm[b0]);
                } else if a == p {
                    assert(out@[b] == o0[b - 1]);
                    assert(o0[b - 1].score < x.score);
                    assert(perm[b - 1] < i);
                } else {
                    let a0 = if a < p { a } else { a - 1 };
                    assert(perm[a0] < i);
                }
            }
            assert forall|k: int| 0 <= k < out.len() implies #[trigger] shows_record(out@[k], orig[np[k]], sviews(keywords@), sviews(extensions@)) by {
                if k < p {
                    assert(out@[k] == o0[k] && np[k] == perm[k]);
                } else if k == p {
                    assert(out@[k] == x && np[k] == i);
                } else {
                    assert(out@[k] == o0[k - 1] && np[k] == perm[k - 1]);
                }
            }
            perm = np;
            i = i + 1;
        }
    }
    proof {
        assert(perm.len() == orig.len());
    }
    out
}

/// The suggestions that the tree search found outside the candidates, in its
/// order: each result not marked as a candidate whose path is not a candidate
/// and has a file name, with that file name and extension.
pub open spec fn is_suggestion(r: SearchResult, phase1: Seq<Seq<char>>) -> bool {
    !r.in_phase1 && !phase1.contains(r.path@) && spec_file_name(r.path@) is Some
}

/// The results that are suggestions, in their order.
pub open spec fn suggestions_of(s: Seq<SearchResult>, phase1: Seq<Seq<char>>) -> Seq<SearchResult> {
    s.filter(|x: SearchResult| is_suggestion(x, phase1))
}

/// `r` shows the suggestion `a`: its path, file name, extension (empty
/// without one) and score; a file, with no size or date yet.
pub open spec fn shows_suggestion(r: SemanticResult, a: SearchResult) -> bool {
    &&& r.path@ == a.path@
    &&& Some(r.name@) == spec_file_name(a.path@)
    &&& r.ext@ == (match spec_extension(a.path@) {
        Some(x) => x,
        None => Seq::empty(),
    })
    &&& !r.is_dir
    &&& r.score == a.score
    &&& r.is_suggestion
    &&& r.size == 0
    &&& r.modified@ == Seq::<char>::empty()
}

/// The suggestions, as the viewer shows them; their sizes and dates, which
/// live on disk, come separately.
pub fn suggestion_results(astar: &Vec<SearchResult>, phase1_paths: &Vec<String>) -> (r: Vec<SemanticResult>)
    ensures
        r.len() == suggestions_of(astar@, sviews(phase1_paths@)).len(),
        forall|k: int| 0 <= k < r.len() ==> shows_suggestion(#[trigger] r[k], suggestions_of(astar@, sviews(phase1_paths@))[k]),
{
    let mut out: Vec<SemanticResult> = Vec::new();
    let mut k: usize = 0;
    while k < astar.len()
        invariant
            k <= astar.len(),
            out.len() == suggestions_of(astar@.take(k as int), sviews(phase1_paths@)).len(),
            forall|q: int| 0 <= q < out.len() ==> shows_suggestion(#[trigger] out[q], suggestions_of(astar@.take(k as int), sviews(phase1_paths@))[q]),
        decreases astar.len() - k,
    {
        let r = &astar[k];
        let ghost t = astar@.take(k + 1);
        proof {
            assert(t =~= astar@.take(k as int).push(astar@[k as int]));
            astar@.take(k as int).lemma_filter_push(astar@[k as int], |x: SearchResult| is_suggestion(x, sviews(phase1_paths@)));
        }
        let mut in_phase1_paths = false;
        let mut j: usize = 0;
        while j < phase1_paths.len()
            invariant
                j <= phase1_paths.len(),
                in_phase1_paths == sviews(phase1_paths@).take(j as int).contains(r.path@),
            decreases phase1_paths.len() - j,
        {
            let same = r.path == phase1_paths[j];
            proof {
                let s = sviews(phase1_paths@);
                assert(s.take(j + 1) =~= s.take(j as int).push(s[j as int]));
                let t0 = s.take(j as int);
                let t1 = s.take(j + 1);
                if t0.contains(r.path@) {
                    let w = choose|w: int| 0 <= w < t0.len() && #[trigger] t0[w] == r.path@;
                    assert(t1[w] == r.path@);
                }
                if t1.contains(r.path@) && !t0.contains(r.path@) {
                    let w = choose|w: int| 0 <= w < t1.len() && #[trigger] t1[w] == r.path@;
                    if w < j {
                        assert(t0[w] == r.path@);
                    }
                }
                if same {
                    assert(s.take(j + 1)[j as int] == r.path@);
                }
            }
            in_phase1_paths = in_phase1_paths || same;
            j = j + 1;
        }
        proof {
            assert(sviews(phase1_paths@).take(phase1_paths.len() as int) =~= sviews(phase1_paths@));
        }
        if !r.in_phase1 && !in_phase1_paths {
            match path_file_name(r.path.as_str()) {
                Some(name) => {
                    let ext = match path_extension(r.path.as_str()) {
                        Some(e) => e,
                        None => String::new(),
                    };
                    let ghost o0 = out@;
                    out.push(SemanticResult {
                        path: r.path.clone(),
                        name,
                        ext,
                        is_dir: false,
                        score: r.score,
                        is_suggestion: true,
                        size: 0,
                        modified: String::new(),
                    });
                    proof {
                        assert(is_suggestion(astar@[k as int], sviews(phase1_paths@)));
                        let f0 = suggestions_of(astar@.take(k as int), sviews(phase1_paths@));
                        let f1 = suggestions_of(astar@.take(k + 1), sviews(phase1_paths@));
                        assert(f1 == f0.push(astar@[k as int]));
                        assert forall|q: int| 0 <= q < out.len() implies shows_suggestion(#[trigger] out[q], f1[q]) by {
                            if q < o0.len() {
                                assert(out[q] == o0[q]);
                                assert(f1[q] == f0[q]);
                            }
                        }
                    }
                },
                None => {},
            }
        }
        k = k + 1;
    }
    assert(astar@.take(astar.len() as int) =~= astar@);
    out
}

/// The paths of the records.
pub open spec fn record_paths(records: Seq<CandidateRecord>) -> Seq<Seq<char>> {
    records.map_values(|c: CandidateRecord| c.path@)
}

/// The result list of a semantic search: every candidate with its score,
/// highest first, then the suggestions of the tree search that are not
/// candidates, in its order; nothing when there are no candidates.
pub fn semantic_results(
    records: Vec<CandidateRecord>,
    keywords: &Vec<String>,
    extensions: &Vec<String>,
    astar: &Vec<SearchResult>,
) -> (r: Vec<SemanticResult>)
    ensures
        records.len() == 0 ==> r.len() == 0,
        records.len() > 0 ==> {
            let sugg = suggestions_of(astar@, record_paths(records@));
            &&& r.len() == records.len() + sugg.len()
            &&& ranks_records(r@.take(records.len() as int), records@, sviews(keywords@), sviews(extensions@))
            &&& forall|k: int| 0 <= k < sugg.len() ==> shows_suggestion(#[trigger] r@[records.len() + k], sugg[k])
        },
{
    if records.len() == 0 {
        return Vec::new();
    }
    let mut paths: Vec<String> = Vec::new();
    let mut k: usize = 0;
    while k < records.len()
        invariant
            k <= records.len(),
            sviews(paths@) == record_paths(records@).take(k as int),
        decreases records.len() - k,
    {
        let ghost p0 = paths@;
        paths.push(records[k].path.clone());
        proof {
            assert(sviews(paths@) =~= sviews(p0).push(records@[k as int].path@));
            assert(record_paths(records@).take(k + 1) =~= record_paths(records@).take(k as int).push(records@[k as int].path@));
        }
        k = k + 1;
    }
    proof {
        assert(record_paths(records@).take(records.len() as int) =~= record_paths(records@));
    }
    let ghost recs = records@;
    let n = records.len();
    let mut out = rank_candidates(records, keywords, extensions);
    let mut sugg = suggestion_results(astar, &paths);
    let ghost o0 = out@;
    let ghost s0 = sugg@;
    out.append(&mut sugg);
    proof {
        assert(out@ == o0 + s0);
        assert(out@.take(n as int) =~= o0);
        let sg = suggestions_of(astar@, record_paths(recs));
        assert forall|k: int| 0 <= k < sg.len() implies shows_suggestion(#[trigger] out@[n + k], sg[k]) by {
            assert(out@[n + k] == s0[k]);
        }
    }
    out
}

/// The Windows file time (100 ns since 1601-01-01) of the Unix epoch.
pub const UNIX_EPOCH_AS_FILETIME: i64 = 116_444_736_000_000_000;

/// The Windows file time of a moment `secs` seconds and `nanos` nanoseconds
/// after the Unix epoch (before it, when `after_epoch` is false).
pub fn systemtime_to_filetime(after_epoch: bool, secs: u64, nanos: u32) -> (r: i64)
    requires
        nanos < 1_000_000_000,
        secs * 10_000_000 <= i64::MAX,
        after_epoch ==> UNIX_EPOCH_AS_FILETIME + secs * 10_000_000 + nanos / 100 <= i64::MAX,
        !after_epoch ==> UNIX_EPOCH_AS_FILETIME - secs * 10_000_000 - nanos / 100 >= i64::MIN,
    ensures
        after_epoch ==> r == UNIX_EPOCH_AS_FILETIME + secs * 10_000_000 + nanos / 100,
        !after_epoch ==> r == UNIX_EPOCH_AS_FILETIME - secs * 10_000_000 - nanos / 100,
{
    if after_epoch {
        UNIX_EPOCH_AS_FILETIME + secs as i64 * 10_000_000 + nanos as i64 / 100
    } else {
        UNIX_EPOCH_AS_FILETIME - secs as i64 * 10_000_000 - nanos as i64 / 100
    }
}

} // verus!
