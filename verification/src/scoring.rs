//! Keyword scoring of paths, in fixed point (`SCORE_SCALE` stands for 1.0).

use crate::paths::{
    opt_chars, path_components, path_extension, path_file_name, path_file_stem, path_parent, spec_components,
    spec_extension, spec_file_name, spec_file_stem, spec_parent,
};
use crate::text::{find_sub, first_match, has_sub, contains_sub, lowercase, spec_lowercase, sviews, to_chars};
use vstd::prelude::*;

verus! {

pub open spec fn min2(x: int, y: int) -> int {
    if x <= y {
        x
    } else {
        y
    }
}

/// The optimal-string-alignment distance between the first `i` characters of
/// `a` and the first `j` characters of `b`: insertions, deletions,
/// substitutions and swaps of adjacent characters each cost one.
pub open spec fn osa(a: Seq<char>, b: Seq<char>, i: nat, j: nat) -> nat
    decreases i, j,
{
    if i == 0 {
        j
    } else if j == 0 {
        i
    } else {
        let cost: int = if a[i - 1] == b[j - 1] {
            0
        } else {
            1
        };
        let m = min2(
            min2(osa(a, b, (i - 1) as nat, j) as int + 1, osa(a, b, i, (j - 1) as nat) as int + 1),
            osa(a, b, (i - 1) as nat, (j - 1) as nat) as int + cost,
        );
        if i > 1 && j > 1 && a[i - 1] == b[j - 2] && a[i - 2] == b[j - 1] {
            min2(m, osa(a, b, (i - 2) as nat, (j - 2) as nat) as int + 1) as nat
        } else {
            m as nat
        }
    }
}

/// The distance between two whole strings.
pub open spec fn spec_edit_distance(a: Seq<char>, b: Seq<char>) -> nat {
    osa(a, b, a.len(), b.len())
}

/// The distance is at most the longer length.
pub proof fn lemma_osa_le(a: Seq<char>, b: Seq<char>, i: nat, j: nat)
    ensures
        osa(a, b, i, j) <= if i >= j { i } else { j },
    decreases i, j,
{
    if i > 0 && j > 0 {
        lemma_osa_le(a, b, (i - 1) as nat, (j - 1) as nat);
    }
}

/// A string is at distance zero from itself.
pub proof fn lemma_osa_self(a: Seq<char>, i: nat)
    ensures
        osa(a, a, i, i) == 0,
    decreases i,
{
    if i > 0 {
        lemma_osa_self(a, (i - 1) as nat);
    }
}

proof fn lemma_osa_symmetric(a: Seq<char>, b: Seq<char>, i: nat, j: nat)
    ensures
        osa(a, b, i, j) == osa(b, a, j, i),
    decreases i, j,
{
    if i > 0 && j > 0 {
        lemma_osa_symmetric(a, b, (i - 1) as nat, j);
        lemma_osa_symmetric(a, b, i, (j - 1) as nat);
        lemma_osa_symmetric(a, b, (i - 1) as nat, (j - 1) as nat);
        if i > 1 && j > 1 {
            lemma_osa_symmetric(a, b, (i - 2) as nat, (j - 2) as nat);
        }
    }
}

proof fn lemma_osa_zero(a: Seq<char>, b: Seq<char>, i: nat, j: nat)
    requires
        i <= a.len(),
        j <= b.len(),
        osa(a, b, i, j) == 0,
    ensures
        i == j,
        a.take(i as int) == b.take(j as int),
    decreases i, j,
{
    if i == 0 || j == 0 {
        assert(a.take(0) =~= b.take(0));
    } else {
        lemma_osa_zero(a, b, (i - 1) as nat, (j - 1) as nat);
        assert(a[i - 1] == b[j - 1]);
        assert(a.take(i as int) =~= a.take(i - 1).push(a[i - 1]));
        assert(b.take(j as int) =~= b.take(j - 1).push(b[j - 1]));
    }
}

/// The distance is symmetric: from `a` to `b` as from `b` to `a`.
pub proof fn lemma_edit_distance_symmetric(a: Seq<char>, b: Seq<char>)
    ensures
        spec_edit_distance(a, b) == spec_edit_distance(b, a),
{
    lemma_osa_symmetric(a, b, a.len(), b.len());
}

/// Two strings are at distance zero exactly when they are equal.
pub proof fn lemma_edit_distance_zero(a: Seq<char>, b: Seq<char>)
    ensures
        spec_edit_distance(a, b) == 0 <==> a == b,
{
    if spec_edit_distance(a, b) == 0 {
        lemma_osa_zero(a, b, a.len(), b.len());
        assert(a.take(a.len() as int) =~= a);
        assert(b.take(b.len() as int) =~= b);
    }
    if a == b {
        lemma_osa_self(a, a.len());
    }
}

/// The distance between `a` and `b`, computed row by row.
pub fn edit_distance(a: &str, b: &str) -> (d: usize)
    ensures
        d == spec_edit_distance(a@, b@),
{
    let av = to_chars(a);
    let bv = to_chars(b);
    let la = av.len();
    let lb = bv.len();
    if la == 0 {
        return lb;
    }
    if lb == 0 {
        return la;
    }
    let ghost sa = av@;
    let ghost sb = bv@;
    // prev2 is row i - 2, prev is row i - 1
    let mut prev2: Vec<u128> = Vec::new();
    let mut prev: Vec<u128> = Vec::new();
    let mut j: usize = 0;
    loop
        invariant_except_break
            j <= lb,
            prev.len() == j,
            forall|c: int| 0 <= c < j ==> prev[c] == osa(sa, sb, 0, c as nat),
        ensures
            prev.len() == lb + 1,
            forall|c: int| 0 <= c <= lb ==> prev[c] == osa(sa, sb, 0, c as nat),
        decreases lb - j,
    {
        prev.push(j as u128);
        if j == lb {
            break;
        }
        j = j + 1;
    }
    let mut i: usize = 1;
    loop
        invariant_except_break
            1 <= i <= la,
            la == sa.len(),
            lb == sb.len(),
            0 < lb,
            prev.len() == lb + 1,
            forall|c: int| 0 <= c <= lb ==> prev[c] == osa(sa, sb, (i - 1) as nat, c as nat),
            i >= 2 ==> prev2.len() == lb + 1,
            i >= 2 ==> forall|c: int| 0 <= c <= lb ==> prev2[c] == osa(sa, sb, (i - 2) as nat, c as nat),
            av@ == sa,
            bv@ == sb,
        ensures
            prev.len() == lb + 1,
            forall|c: int| 0 <= c <= lb ==> prev[c] == osa(sa, sb, la as nat, c as nat),
        decreases la - i,
    {
        let mut cur: Vec<u128> = Vec::new();
        cur.push(i as u128);
        let mut jj: usize = 1;
        while jj <= lb
            invariant
                1 <= i <= la,
                1 <= jj <= lb + 1,
                la == sa.len(),
                lb == sb.len(),
                cur.len() == jj,
                prev.len() == lb + 1,
                forall|c: int| 0 <= c <= lb ==> prev[c] == osa(sa, sb, (i - 1) as nat, c as nat),
                i >= 2 ==> prev2.len() == lb + 1,
                i >= 2 ==> forall|c: int| 0 <= c <= lb ==> prev2[c] == osa(sa, sb, (i - 2) as nat, c as nat),
                forall|c: int| 0 <= c < jj ==> cur[c] == osa(sa, sb, i as nat, c as nat),
                av@ == sa,
                bv@ == sb,
            decreases lb + 1 - jj,
        {
            proof {
                lemma_osa_le(sa, sb, (i - 1) as nat, jj as nat);
                lemma_osa_le(sa, sb, i as nat, (jj - 1) as nat);
                lemma_osa_le(sa, sb, (i - 1) as nat, (jj - 1) as nat);
                if i >= 2 && jj >= 2 {
                    lemma_osa_le(sa, sb, (i - 2) as nat, (jj - 2) as nat);
                }
            }
            let cost: u128 = if av[i - 1] == bv[jj - 1] {
                0
            } else {
                1
            };
            let del = prev[jj] + 1;
            let ins = cur[jj - 1] + 1;
            let sub = prev[jj - 1] + cost;
            let mut v = if del <= ins {
                del
            } else {
                ins
            };
            if sub < v {
                v = sub;
            }
            if i > 1 && jj > 1 && av[i - 1] == bv[jj - 2] && av[i - 2] == bv[jj - 1] {
                let t = prev2[jj - 2] + 1;
                if t < v {
                    v = t;
                }
            }
            cur.push(v);
            jj = jj + 1;
        }
        prev2 = prev;
        prev = cur;
        if i == la {
            break;
        }
        i = i + 1;
    }
    proof {
        lemma_osa_le(sa, sb, la as nat, lb as nat);
    }
    prev[lb] as usize
}


/// The score of a keyword found only in an ancestor folder, `d` levels above
/// the nearest: 0.5, less 0.05 a level, at least 0.35.
pub open spec fn decayed(d: int) -> int {
    if 500_000 - 50_000 * d >= 350_000 {
        500_000 - 50_000 * d
    } else {
        350_000
    }
}

/// The score of a keyword by the ancestor folders, nearest last, the nearest
/// being `d` levels above the one checked last: the decayed score of the
/// nearest folder that holds the keyword, else the floor 0.1.
pub open spec fn ancestor_score(kw: Seq<char>, ancestors: Seq<Seq<char>>, d: int) -> int
    decreases ancestors.len(),
{
    if ancestors.len() == 0 {
        100_000
    } else if has_sub(ancestors.last(), kw) {
        decayed(d)
    } else {
        ancestor_score(kw, ancestors.drop_last(), d + 1)
    }
}

/// How well one keyword matches a file, in `[0.1, 1.0]`: 1.0 for the exact
/// stem; 0.6 to 0.95 when the file name holds the keyword (more for a larger
/// share of the name, 0.1 more at its start); 0.3 to 0.55 when the stem is a
/// typo away; a decaying middle score when only a folder holds it; else 0.1.
pub open spec fn spec_score_one(kw: Seq<char>, file_name: Seq<char>, stem: Seq<char>, ancestors: Seq<Seq<char>>) -> int {
    if kw.len() == 0 {
        100_000
    } else if stem == kw {
        1_000_000
    } else {
        match first_match(file_name, kw) {
            Some(pos) => min2(
                600_000 + (250_000 * (kw.len() as int)) / (file_name.len() as int) + if pos == 0 {
                    100_000int
                } else {
                    0int
                },
                950_000,
            ),
            None => {
                let dist = spec_edit_distance(kw, stem) as int;
                let threshold = if kw.len() / 3 > 1 { kw.len() / 3 } else { 1 };
                if kw.len() >= 2 && dist <= threshold {
                    let ml0 = if kw.len() >= stem.len() { kw.len() as int } else { stem.len() as int };
                    let ml = if ml0 >= 1 { ml0 } else { 1 };
                    min2(300_000 + (250_000 * (ml - dist)) / ml, 550_000)
                } else {
                    ancestor_score(kw, ancestors, 0)
                }
            },
        }
    }
}

fn score_one(kw: &str, file_name: &str, stem: &str, ancestors: &Vec<String>) -> (r: i64)
    ensures
        r == spec_score_one(kw@, file_name@, stem@, sviews(ancestors@)),
        100_000 <= r <= 1_000_000,
{
    let k = to_chars(kw);
    let f = to_chars(file_name);
    let st = to_chars(stem);
    if k.len() == 0 {
        return 100_000;
    }
    if st.len() == k.len() && crate::text::has_prefix(&st, &k) {
        proof {
            assert(st@.take(k@.len() as int) =~= st@);
        }
        return 1_000_000;
    }
    proof {
        if st@ == k@ {
            assert(st@.take(k@.len() as int) =~= st@);
        }
    }
    match find_sub(&f, &k) {
        Some(pos) => {
            proof {
                crate::text::lemma_find_bound(f@, k@, pos as int);
            }
            let kc = k.len() as u128;
            let fc = f.len() as u128;
            let cov = (250_000u128 * kc) / fc;
            proof {
                let kci = kc as int;
                let fci = fc as int;
                assert(kci <= fci);
                assert(250_000 * kci <= 250_000 * fci) by (nonlinear_arith)
                    requires kci <= fci;
                assert((250_000 * kci) / fci <= 250_000) by (nonlinear_arith)
                    requires 250_000 * kci <= 250_000 * fci, fci > 0;
            }
            let bonus: u128 = if pos == 0 {
                100_000
            } else {
                0
            };
            let raw = 600_000 + cov + bonus;
            if raw <= 950_000 {
                raw as i64
            } else {
                950_000
            }
        },
        None => {
            let kc = k.len();
            if kc >= 2 {
                let dist = edit_distance(kw, stem);
                let threshold = if kc / 3 > 1 {
                    kc / 3
                } else {
                    1
                };
                if dist <= threshold {
                    let ml0 = if kc >= st.len() {
                        kc
                    } else {
                        st.len()
                    };
                    let ml = if ml0 >= 1 {
                        ml0
                    } else {
                        1
                    };
                    proof {
                        lemma_osa_le(k@, st@, k@.len(), st@.len());
                    }
                    let sim = (250_000u128 * ((ml - dist) as u128)) / (ml as u128);
                    proof {
                        let a = (ml - dist) as int;
                        let m = ml as int;
                        assert(250_000 * a <= 250_000 * m) by (nonlinear_arith)
                            requires a <= m;
                        assert((250_000 * a) / m <= 250_000) by (nonlinear_arith)
                            requires 250_000 * a <= 250_000 * m, m > 0;
                    }
                    let raw = 300_000 + sim;
                    return if raw <= 550_000 {
                        raw as i64
                    } else {
                        550_000
                    };
                }
            }
            let mut a: usize = ancestors.len();
            let mut d: u64 = 0;
            proof {
                assert(sviews(ancestors@).take(ancestors.len() as int) =~= sviews(ancestors@));
            }
            while a > 0
                invariant
                    k@ == kw@,
                    spec_score_one(kw@, file_name@, stem@, sviews(ancestors@)) == ancestor_score(k@, sviews(ancestors@), 0),
                    a <= ancestors.len(),
                    d as int + a as int == ancestors.len(),
                    ancestor_score(k@, sviews(ancestors@), 0) == ancestor_score(k@, sviews(ancestors@).take(a as int), d as int),
                decreases a,
            {
                let ghost t = sviews(ancestors@).take(a as int);
                proof {
                    assert(t.last() == ancestors@[a - 1]@);
                    assert(t.drop_last() =~= sviews(ancestors@).take(a - 1));
                }
                let comp = to_chars(ancestors[a - 1].as_str());
                if contains_sub(&comp, &k) {
                    return if d <= 3 {
                        (500_000 - 50_000 * d) as i64
                    } else {
                        350_000
                    };
                }
                a = a - 1;
                d = d + 1;
            }
            proof {
                assert(sviews(ancestors@).take(0) =~= Seq::<Seq<char>>::empty());
            }
            100_000
        },
    }
}


/// Each string lower-cased.
pub open spec fn lower_all(s: Seq<Seq<char>>) -> Seq<Seq<char>> {
    s.map_values(|c: Seq<char>| spec_lowercase(c))
}

/// The sum of the scores of the keywords.
pub open spec fn sum_scores(kws: Seq<Seq<char>>, file_name: Seq<char>, stem: Seq<char>, ancestors: Seq<Seq<char>>) -> int
    decreases kws.len(),
{
    if kws.len() == 0 {
        0
    } else {
        sum_scores(kws.drop_last(), file_name, stem, ancestors) + spec_score_one(kws.last(), file_name, stem, ancestors)
    }
}

/// The lower-cased file name of a path (empty when it has none).
pub open spec fn lower_file_name(path: Seq<char>) -> Seq<char> {
    match spec_file_name(path) {
        Some(n) => spec_lowercase(n),
        None => Seq::empty(),
    }
}

/// The lower-cased stem of a path (its file name when it has none).
pub open spec fn lower_stem(path: Seq<char>) -> Seq<char> {
    match spec_file_stem(path) {
        Some(n) => spec_lowercase(n),
        None => lower_file_name(path),
    }
}

/// The lower-cased components of the parent of a path.
pub open spec fn lower_ancestors(path: Seq<char>) -> Seq<Seq<char>> {
    match spec_parent(path) {
        Some(p) => lower_all(spec_components(p)),
        None => Seq::empty(),
    }
}

/// The lower-cased extension of a path (empty when it has none).
pub open spec fn lower_extension(path: Seq<char>) -> Seq<char> {
    match spec_extension(path) {
        Some(e) => spec_lowercase(e),
        None => Seq::empty(),
    }
}

/// The score of a path for keywords and extensions, in `[0, 1]`: no keywords
/// give 0; else the mean of the keywords' scores (rounded down), plus 0.2 when
/// the path has one of the extensions (case ignored), at most 1.0.
pub open spec fn spec_score_path(path: Seq<char>, keywords: Seq<Seq<char>>, extensions: Seq<Seq<char>>) -> int {
    if keywords.len() == 0 {
        0
    } else {
        let base = sum_scores(keywords, lower_file_name(path), lower_stem(path), lower_ancestors(path))
            / (keywords.len() as int);
        let bonus = if extensions.len() > 0 && lower_all(extensions).contains(lower_extension(path)) {
            200_000int
        } else {
            0int
        };
        min2(base + bonus, 1_000_000)
    }
}

/// A typo is recognised: a keyword of two or more characters that the file
/// name does not hold, but that is at most `max(len / 3, 1)` edits away from
/// the stem, scores at least 0.3, never the floor 0.1 (and at most 0.55
/// unless it is the stem itself).
pub proof fn lemma_typo_scores(kw: Seq<char>, file_name: Seq<char>, stem: Seq<char>, ancestors: Seq<Seq<char>>)
    requires
        kw.len() >= 2,
        first_match(file_name, kw) is None,
        spec_edit_distance(kw, stem) <= (if kw.len() / 3 > 1 { kw.len() / 3 } else { 1 }),
    ensures
        300_000 <= spec_score_one(kw, file_name, stem, ancestors),
        stem != kw ==> spec_score_one(kw, file_name, stem, ancestors) <= 550_000,
{
    lemma_osa_le(kw, stem, kw.len(), stem.len());
    if stem != kw {
        let ml: int = if kw.len() >= stem.len() { kw.len() as int } else { stem.len() as int };
        let d = spec_edit_distance(kw, stem) as int;
        assert(0 <= d <= ml);
        assert(0 <= (250_000 * (ml - d)) / ml) by (nonlinear_arith)
            requires 0 <= d <= ml, ml >= 2;
    }
}

proof fn lemma_ancestor_band(kw: Seq<char>, ancestors: Seq<Seq<char>>, d: int)
    requires
        d >= 0,
    ensures
        (exists|k: int| 0 <= k < ancestors.len() && #[trigger] has_sub(ancestors[k], kw)) ==> 350_000 <= ancestor_score(
            kw,
            ancestors,
            d,
        ) <= 500_000,
        (forall|k: int| 0 <= k < ancestors.len() ==> !#[trigger] has_sub(ancestors[k], kw)) ==> ancestor_score(kw, ancestors, d)
            == 100_000,
    decreases ancestors.len(),
{
    if ancestors.len() > 0 {
        let rest = ancestors.drop_last();
        lemma_ancestor_band(kw, rest, d + 1);
        if !has_sub(ancestors.last(), kw) {
            assert forall|k: int| 0 <= k < ancestors.len() && #[trigger] has_sub(ancestors[k], kw) implies exists|j: int|
                0 <= j < rest.len() && #[trigger] has_sub(rest[j], kw) by {
                assert(k < rest.len());
                assert(rest[k] == ancestors[k]);
            }
            assert forall|k: int| 0 <= k < rest.len() implies #[trigger] rest[k] == ancestors[k] by {}
        }
    }
}

/// How one keyword scores against a file, by the kind of match: nothing for
/// an empty keyword (0.1); the exact stem 1.0; a keyword in the file name
/// 0.6 to 0.95, at least 0.7 at its start; otherwise, when it is not a typo
/// of the stem, 0.35 to 0.5 when an ancestor folder holds it and the floor
/// 0.1 when none does.
pub proof fn lemma_score_one_bands(kw: Seq<char>, file_name: Seq<char>, stem: Seq<char>, ancestors: Seq<Seq<char>>)
    ensures
        kw.len() == 0 ==> spec_score_one(kw, file_name, stem, ancestors) == 100_000,
        kw.len() > 0 && stem == kw ==> spec_score_one(kw, file_name, stem, ancestors) == 1_000_000,
        kw.len() > 0 && stem != kw && first_match(file_name, kw) is Some ==> 600_000 <= spec_score_one(
            kw,
            file_name,
            stem,
            ancestors,
        ) <= 950_000,
        kw.len() > 0 && stem != kw && first_match(file_name, kw) == Some(0int) ==> 700_000 <= spec_score_one(
            kw,
            file_name,
            stem,
            ancestors,
        ),
        kw.len() > 0 && stem != kw && first_match(file_name, kw) is None && !(kw.len() >= 2 && spec_edit_distance(kw, stem)
            <= (if kw.len() / 3 > 1 { kw.len() / 3 } else { 1 })) ==> {
            &&& (exists|k: int| 0 <= k < ancestors.len() && #[trigger] has_sub(ancestors[k], kw)) ==> 350_000
                <= spec_score_one(kw, file_name, stem, ancestors) <= 500_000
            &&& (forall|k: int| 0 <= k < ancestors.len() ==> !#[trigger] has_sub(ancestors[k], kw))
                ==> spec_score_one(kw, file_name, stem, ancestors) == 100_000
        },
{
    lemma_ancestor_band(kw, ancestors, 0);
    if kw.len() > 0 && stem != kw {
        if let Some(pos) = first_match(file_name, kw) {
            assert(file_name.len() > 0) by {
                crate::text::lemma_find_bound(file_name, kw, pos);
            }
            assert(0 <= (250_000 * (kw.len() as int)) / (file_name.len() as int)) by (nonlinear_arith)
                requires file_name.len() > 0;
        }
    }
}

/// A path scored for one keyword that is a typo of its lower-cased stem
/// (and not in its lower-cased file name), with no extensions asked for,
/// scores at least 0.3.
pub proof fn lemma_typo_path_score(path: Seq<char>, kw: Seq<char>)
    requires
        kw.len() >= 2,
        first_match(lower_file_name(path), kw) is None,
        spec_edit_distance(kw, lower_stem(path)) <= (if kw.len() / 3 > 1 { kw.len() / 3 } else { 1 }),
    ensures
        300_000 <= spec_score_path(path, seq![kw], Seq::empty()),
{
    lemma_typo_scores(kw, lower_file_name(path), lower_stem(path), lower_ancestors(path));
    let ks = seq![kw];
    assert(ks.drop_last() =~= Seq::<Seq<char>>::empty());
    assert(ks.last() == kw);
    assert(sum_scores(ks.drop_last(), lower_file_name(path), lower_stem(path), lower_ancestors(path)) == 0);
    assert(sum_scores(ks, lower_file_name(path), lower_stem(path), lower_ancestors(path)) == spec_score_one(
        kw,
        lower_file_name(path),
        lower_stem(path),
        lower_ancestors(path),
    ));
}

/// Asking for extensions changes a path's score only by the extension bonus:
/// a path whose extension is one of them (case ignored) scores 0.2 more than
/// with no extensions asked for, at most 1.0; any other path scores the same.
pub proof fn lemma_extension_bonus(path: Seq<char>, keywords: Seq<Seq<char>>, extensions: Seq<Seq<char>>)
    ensures
        ({
            let plain = spec_score_path(path, keywords, Seq::empty());
            let hit = exists|j: int|
                0 <= j < extensions.len() && #[trigger] spec_lowercase(extensions[j]) == lower_extension(path);
            &&& keywords.len() == 0 ==> spec_score_path(path, keywords, extensions) == 0
            &&& keywords.len() > 0 && hit ==> spec_score_path(path, keywords, extensions) == min2(
                plain + 200_000,
                1_000_000,
            )
            &&& !hit ==> spec_score_path(path, keywords, extensions) == plain
        }),
{
    let le = lower_all(extensions);
    if exists|j: int| 0 <= j < extensions.len() && #[trigger] spec_lowercase(extensions[j]) == lower_extension(path) {
        let j = choose|j: int|
            0 <= j < extensions.len() && #[trigger] spec_lowercase(extensions[j]) == lower_extension(path);
        assert(le[j] == lower_extension(path));
    } else {
        if le.contains(lower_extension(path)) {
            let j = choose|j: int| 0 <= j < le.len() && le[j] == lower_extension(path);
            assert(spec_lowercase(extensions[j]) == lower_extension(path));
        }
    }
}

proof fn lemma_sum_bounds(kws: Seq<Seq<char>>, file_name: Seq<char>, stem: Seq<char>, ancestors: Seq<Seq<char>>)
    requires
        forall|k: int| 0 <= k < kws.len() ==> 100_000 <= #[trigger] spec_score_one(kws[k], file_name, stem, ancestors) <= 1_000_000,
    ensures
        100_000 * kws.len() <= sum_scores(kws, file_name, stem, ancestors) <= 1_000_000 * kws.len(),
    decreases kws.len(),
{
    if kws.len() > 0 {
        assert forall|k: int| 0 <= k < kws.drop_last().len() implies 100_000 <= #[trigger] spec_score_one(
            kws.drop_last()[k],
            file_name,
            stem,
            ancestors,
        ) <= 1_000_000 by {
            assert(kws.drop_last()[k] == kws[k]);
        }
        lemma_sum_bounds(kws.drop_last(), file_name, stem, ancestors);
        assert(spec_score_one(kws[kws.len() - 1], file_name, stem, ancestors) <= 1_000_000);
    }
}

/// The score of a path for the keywords and extensions of a query.
pub fn score_path(path: &str, keywords: &[String], extensions: &[String]) -> (r: i64)
    ensures
        r == spec_score_path(path@, sviews(keywords@), sviews(extensions@)),
        0 <= r <= 1_000_000,
        keywords.len() > 0 ==> 100_000 <= r,
{
    if keywords.len() == 0 {
        return 0;
    }
    let file_name: String = match path_file_name(path) {
        Some(n) => lowercase(n.as_str()),
        None => String::new(),
    };
    let stem: String = match path_file_stem(path) {
        Some(n) => lowercase(n.as_str()),
        None => file_name.clone(),
    };
    let mut ancestors: Vec<String> = Vec::new();
    match path_parent(path) {
        Some(p) => {
            let comps = path_components(p.as_str());
            let mut k: usize = 0;
            while k < comps.len()
                invariant
                    k <= comps.len(),
                    sviews(comps@) == spec_components(p@),
                    sviews(ancestors@) == lower_all(sviews(comps@)).take(k as int),
                decreases comps.len() - k,
            {
                let ghost a0 = sviews(ancestors@);
                let lc = lowercase(comps[k].as_str());
                assert(lc@ == lower_all(sviews(comps@))[k as int]);
                ancestors.push(lc);
                assert(sviews(ancestors@) =~= a0.push(lc@));
                assert(lower_all(sviews(comps@)).take(k + 1) =~= lower_all(sviews(comps@)).take(k as int).push(lc@));
                k = k + 1;
            }
            assert(lower_all(sviews(comps@)).take(comps.len() as int) =~= lower_all(sviews(comps@)));
        },
        None => {},
    }
    proof {
        assert(file_name@ == lower_file_name(path@));
        assert(stem@ == lower_stem(path@));
        assert(sviews(ancestors@) == lower_ancestors(path@));
    }
    let mut total: i128 = 0;
    let mut k: usize = 0;
    while k < keywords.len()
        invariant
            k <= keywords.len(),
            file_name@ == lower_file_name(path@),
            stem@ == lower_stem(path@),
            sviews(ancestors@) == lower_ancestors(path@),
            total == sum_scores(sviews(keywords@).take(k as int), file_name@, stem@, sviews(ancestors@)),
            100_000 * k <= total <= 1_000_000 * k,
        decreases keywords.len() - k,
    {
        let s = score_one(keywords[k].as_str(), file_name.as_str(), stem.as_str(), &ancestors);
        proof {
            let t = sviews(keywords@).take(k + 1);
            assert(t.drop_last() =~= sviews(keywords@).take(k as int));
            assert(t.last() == keywords@[k as int]@);
        }
        total = total + s as i128;
        k = k + 1;
    }
    proof {
        assert(sviews(keywords@).take(keywords.len() as int) =~= sviews(keywords@));
        let ti = total as int;
        let n = keywords.len() as int;
        assert(ti / n <= 1_000_000) by (nonlinear_arith)
            requires ti <= 1_000_000 * n, n > 0;
        assert(ti / n >= 100_000) by (nonlinear_arith)
            requires ti >= 100_000 * n, n > 0;
    }
    let base = total / (keywords.len() as i128);
    let mut bonus: i128 = 0;
    if extensions.len() > 0 {
        let file_ext: String = match path_extension(path) {
            Some(e) => lowercase(e.as_str()),
            None => String::new(),
        };
        let fe = to_chars(file_ext.as_str());
        let mut found = false;
        let mut k: usize = 0;
        while k < extensions.len()
            invariant
                k <= extensions.len(),
                fe@ == lower_extension(path@),
                found == lower_all(sviews(extensions@)).take(k as int).contains(fe@),
            decreases extensions.len() - k,
        {
            let e = lowercase(extensions[k].as_str());
            let ec = to_chars(e.as_str());
            let eq = ec.len() == fe.len() && crate::text::has_prefix(&ec, &fe);
            proof {
                if ec@.len() == fe@.len() {
                    assert(ec@.take(fe@.len() as int) =~= ec@);
                }
                let t = lower_all(sviews(extensions@)).take(k + 1);
                assert(t =~= lower_all(sviews(extensions@)).take(k as int).push(ec@));
                if t.contains(fe@) && !lower_all(sviews(extensions@)).take(k as int).contains(fe@) {
                    let j = choose|j: int| 0 <= j < t.len() && t[j] == fe@;
                    assert(j == k);
                }
                if lower_all(sviews(extensions@)).take(k as int).contains(fe@) {
                    let j = choose|j: int| 0 <= j < k && lower_all(sviews(extensions@)).take(k as int)[j] == fe@;
                    assert(t[j] == fe@);
                }
                if eq {
                    assert(t[k as int] == fe@);
                }
            }
            found = found || eq;
            k = k + 1;
        }
        proof {
            assert(lower_all(sviews(extensions@)).take(extensions.len() as int) =~= lower_all(sviews(extensions@)));
        }
        if found {
            bonus = 200_000;
        }
    }
    let raw = base + bonus;
    if raw <= 1_000_000 {
        raw as i64
    } else {
        1_000_000
    }
}

} // verus!
