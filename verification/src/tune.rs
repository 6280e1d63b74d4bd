//! The evaluation set for tuning the search parameters `lambda` and `mu`.

use crate::engine::SearchResult;
use crate::text::sviews;
use vstd::prelude::*;

verus! {

/// One query scenario: the candidate paths, the paths that should rank in
/// the top `top_k`, and the query.
#[derive(Debug, Clone)]
pub struct EvalCase {
    pub name: String,
    pub query: String,
    /// Every path in the tree.
    pub paths: Vec<String>,
    /// The paths wanted in the top `top_k`.
    pub relevant: Vec<String>,
    pub top_k: usize,
}

/// A case as plain values: name, query, paths, relevant paths, `top_k`.
pub open spec fn case_view(c: EvalCase) -> (Seq<char>, Seq<char>, Seq<Seq<char>>, Seq<Seq<char>>, usize) {
    (c.name@, c.query@, sviews(c.paths@), sviews(c.relevant@), c.top_k)
}

/// The built-in cases: relevant files near the top, deep down, spread out,
/// and one file among many.
pub open spec fn eval_case_spec(k: int) -> (Seq<char>, Seq<char>, Seq<Seq<char>>, Seq<Seq<char>>, usize) {
    if k == 0 {
        ("shallow_relevant"@, "button component"@, seq!["/project/src/components/Button.tsx"@, "/project/src/components/Input.tsx"@, "/project/src/components/Modal.tsx"@, "/project/src/deep/a/b/c/d/Button2.tsx"@, "/project/src/utils/format.ts"@, "/project/src/utils/parse.ts"@, "/project/lib/helpers/string.ts"@], seq!["/project/src/components/Button.tsx"@, "/project/src/components/Modal.tsx"@], 3usize)
    } else if k == 1 {
        ("deep_relevant"@, "auth token"@, seq!["/project/src/core/main.rs"@, "/project/src/core/lib.rs"@, "/project/src/server/auth/token.rs"@, "/project/src/server/auth/refresh.rs"@, "/project/src/server/public/index.rs"@, "/project/src/server/public/health.rs"@], seq!["/project/src/server/auth/token.rs"@, "/project/src/server/auth/refresh.rs"@], 3usize)
    } else if k == 2 {
        ("spread_relevant"@, "database query"@, seq!["/project/src/db/query.rs"@, "/project/src/db/schema.rs"@, "/project/src/db/migration.rs"@, "/project/src/api/users.rs"@, "/project/src/api/posts.rs"@, "/project/src/cache/redis.rs"@, "/project/tests/db/query_test.rs"@, "/project/tests/api/users_test.rs"@], seq!["/project/src/db/query.rs"@, "/project/tests/db/query_test.rs"@], 4usize)
    } else {
        ("needle_in_haystack"@, "config loader"@, seq!["/project/src/core/config.rs"@, "/project/src/utils/string.rs"@, "/project/src/utils/number.rs"@, "/project/src/utils/date.rs"@, "/project/src/models/user.rs"@, "/project/src/models/post.rs"@, "/project/src/models/comment.rs"@, "/project/src/views/index.html"@, "/project/src/views/about.html"@], seq!["/project/src/core/config.rs"@], 3usize)
    }
}

/// A path as a string.
pub fn pb(s: &str) -> (r: String)
    ensures
        r@ == s@,
{
    s.to_owned()
}

/// The built-in evaluation cases.
pub fn default_eval_cases() -> (r: Vec<EvalCase>)
    ensures
        r.len() == 4,
        forall|k: int| 0 <= k < 4 ==> case_view(#[trigger] r[k]) == eval_case_spec(k),
{
    let c0 = EvalCase {
        name: "shallow_relevant".to_owned(),
        query: "button component".to_owned(),
        paths: vec![pb("/project/src/components/Button.tsx"), pb("/project/src/components/Input.tsx"), pb("/project/src/components/Modal.tsx"), pb("/project/src/deep/a/b/c/d/Button2.tsx"), pb("/project/src/utils/format.ts"), pb("/project/src/utils/parse.ts"), pb("/project/lib/helpers/string.ts")],
        relevant: vec![pb("/project/src/components/Button.tsx"), pb("/project/src/components/Modal.tsx")],
        top_k: 3,
    };
    assert(case_view(c0) =~~= eval_case_spec(0));
    let c1 = EvalCase {
        name: "deep_relevant".to_owned(),
        query: "auth token".to_owned(),
        paths: vec![pb("/project/src/core/main.rs"), pb("/project/src/core/lib.rs"), pb("/project/src/server/auth/token.rs"), pb("/project/src/server/auth/refresh.rs"), pb("/project/src/server/public/index.rs"), pb("/project/src/server/public/health.rs")],
        relevant: vec![pb("/project/src/server/auth/token.rs"), pb("/project/src/server/auth/refresh.rs")],
        top_k: 3,
    };
    assert(case_view(c1) =~~= eval_case_spec(1));
    let c2 = EvalCase {
        name: "spread_relevant".to_owned(),
        query: "database query".to_owned(),
        paths: vec![pb("/project/src/db/query.rs"), pb("/project/src/db/schema.rs"), pb("/project/src/db/migration.rs"), pb("/project/src/api/users.rs"), pb("/project/src/api/posts.rs"), pb("/project/src/cache/redis.rs"), pb("/project/tests/db/query_test.rs"), pb("/project/tests/api/users_test.rs")],
        relevant: vec![pb("/project/src/db/query.rs"), pb("/project/tests/db/query_test.rs")],
        top_k: 4,
    };
    assert(case_view(c2) =~~= eval_case_spec(2));
    let c3 = EvalCase {
        name: "needle_in_haystack".to_owned(),
        query: "config loader".to_owned(),
        paths: vec![pb("/project/src/core/config.rs"), pb("/project/src/utils/string.rs"), pb("/project/src/utils/number.rs"), pb("/project/src/utils/date.rs"), pb("/project/src/models/user.rs"), pb("/project/src/models/post.rs"), pb("/project/src/models/comment.rs"), pb("/project/src/views/index.html"), pb("/project/src/views/about.html")],
        relevant: vec![pb("/project/src/core/config.rs")],
        top_k: 3,
    };
    assert(case_view(c3) =~~= eval_case_spec(3));
    let r = vec![c0, c1, c2, c3];
    assert forall|k: int| 0 <= k < 4 implies case_view(#[trigger] r[k]) == eval_case_spec(k) by {
        if k == 0 {
        } else if k == 1 {
        } else if k == 2 {
        } else {
        }
    }
    r
}

/// The counts behind the precision, recall and reciprocal rank of a result
/// list: how many results were considered (the first `top_k`), how many of
/// them are relevant, and the position of the first relevant one.
#[derive(Debug, Clone, Copy, PartialEq, Eq)]
pub struct EvalCounts {
    pub considered: usize,
    pub hits: usize,
    pub first_hit: Option<usize>,
}

/// The number of relevant results among the first `n`.
pub open spec fn hits_in(results: Seq<SearchResult>, relevant: Seq<Seq<char>>, n: int) -> nat
    decreases n,
{
    if n <= 0 {
        0
    } else {
        hits_in(results, relevant, n - 1) + if relevant.contains(results[n - 1].path@) {
            1nat
        } else {
            0nat
        }
    }
}

/// The counts for a case's relevant paths and a result list.
pub fn eval_counts(case: &EvalCase, results: &Vec<SearchResult>) -> (c: EvalCounts)
    ensures
        c.considered == (if case.top_k <= results.len() { case.top_k } else { results.len() }),
        c.hits == hits_in(results@, sviews(case.relevant@), c.considered as int),
        match c.first_hit {
            Some(i) => i < c.considered && sviews(case.relevant@).contains(results@[i as int].path@)
                && forall|j: int| 0 <= j < i ==> !sviews(case.relevant@).contains(#[trigger] results@[j].path@),
            None => forall|j: int| 0 <= j < c.considered ==> !sviews(case.relevant@).contains(#[trigger] results@[j].path@),
        },
{
    let top_k = if case.top_k <= results.len() {
        case.top_k
    } else {
        results.len()
    };
    let ghost rel = sviews(case.relevant@);
    let mut hits: usize = 0;
    let mut first_hit: Option<usize> = None;
    let mut i: usize = 0;
    while i < top_k
        invariant
            i <= top_k <= results.len(),
            rel == sviews(case.relevant@),
            hits == hits_in(results@, rel, i as int),
            hits <= i,
            match first_hit {
                Some(f) => f < i && rel.contains(results@[f as int].path@)
                    && forall|j: int| 0 <= j < f ==> !rel.contains(#[trigger] results@[j].path@),
                None => forall|j: int| 0 <= j < i ==> !rel.contains(#[trigger] results@[j].path@),
            },
        decreases top_k - i,
    {
        let mut found = false;
        let mut j: usize = 0;
        while j < case.relevant.len()
            invariant
                j <= case.relevant.len(),
                i < results.len(),
                rel == sviews(case.relevant@),
                found == rel.take(j as int).contains(results@[i as int].path@),
            decreases case.relevant.len() - j,
        {
            let same = results[i].path == case.relevant[j];
            proof {
                let x = results@[i as int].path@;
                let t0 = rel.take(j as int);
                let t1 = rel.take(j + 1);
                assert(t1 =~= t0.push(rel[j as int]));
                if t0.contains(x) {
                    let w = choose|w: int| 0 <= w < t0.len() && #[trigger] t0[w] == x;
                    assert(t1[w] == x);
                }
                if t1.contains(x) && !t0.contains(x) {
                    let w = choose|w: int| 0 <= w < t1.len() && #[trigger] t1[w] == x;
                    if w < j {
                        assert(t0[w] == x);
                    }
                }
                if same {
                    assert(t1[j as int] == x);
                }
            }
            found = found || same;
            j = j + 1;
        }
        proof {
            assert(rel.take(case.relevant.len() as int) =~= rel);
        }
        if found {
            hits = hits + 1;
            if first_hit.is_none() {
                first_hit = Some(i);
            }
        }
        i = i + 1;
    }
    EvalCounts { considered: top_k, hits, first_hit }
}

} // verus!
