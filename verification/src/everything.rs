//! The interface to the Everything search engine, as this platform has it:
//! Everything runs on Windows only, so here a search finds nothing. The
//! ordering of browse rows and the encoding of queries are platform-free.

use crate::text::{
    chars_lt, chars_less, lemma_chars_lt_asymmetric, lemma_chars_lt_irreflexive, lemma_chars_lt_total,
    lemma_chars_lt_transitive, lowercase, spec_lowercase, sub_chars, to_chars, trim, trim_chars,
};
use vstd::prelude::*;

verus! {

/// Why an Everything search failed.
#[derive(Debug)]
pub enum SearchError {
    /// The Everything library could not be loaded; the reason is given.
    DllLoad(String),
    /// Everything is not running.
    NotRunning,
    /// The query failed with Everything's error code.
    QueryFailed(u32),
    /// Everything needs Windows.
    Unsupported,
    /// A newer search replaced this one.
    Cancelled,
}

impl SearchError {
    /// The error's message.
    pub open spec fn message_spec(&self) -> Seq<char> {
        match self {
            SearchError::DllLoad(m) => "Everything64.dll のロードに失敗: "@ + m@,
            SearchError::NotRunning => "Everything が起動していません"@,
            SearchError::QueryFailed(c) => "クエリ失敗: code="@ + crate::text::dec_str(*c as nat),
            SearchError::Unsupported => "Windows 環境が必要です"@,
            SearchError::Cancelled => "検索がキャンセルされました"@,
        }
    }

    /// The error's message.
    pub fn message(&self) -> (r: String)
        ensures
            r@ == self.message_spec(),
    {
        match self {
            SearchError::DllLoad(m) => {
                let mut out = to_chars("Everything64.dll のロードに失敗: ");
                crate::text::push_lit(&mut out, m.as_str());
                crate::text::chars_to_string(&out)
            },
            SearchError::NotRunning => "Everything が起動していません".to_owned(),
            SearchError::QueryFailed(c) => {
                let mut out = to_chars("クエリ失敗: code=");
                crate::text::push_dec(&mut out, *c as u64);
                crate::text::chars_to_string(&out)
            },
            SearchError::Unsupported => "Windows 環境が必要です".to_owned(),
            SearchError::Cancelled => "検索がキャンセルされました".to_owned(),
        }
    }
}

/// A file or folder that Everything found.
#[derive(Debug)]
pub struct SearchResult {
    pub name: String,
    pub path: String,
    pub folder: String,
    pub is_dir: bool,
    pub ext: String,
}

/// A row of a browse listing: the full path, and what sorting needs.
#[derive(Debug, Clone)]
pub struct BrowseRow {
    pub path: String,
    pub is_dir: bool,
    pub size: u64,
    pub mtime: i64,
}

/// How Everything matches a query.
#[derive(Debug, Clone, Copy, Default)]
pub struct MatchOptions {
    pub case_sensitive: bool,
    pub whole_word: bool,
    pub match_path: bool,
}

pub const EVERYTHING_SORT_NAME_ASCENDING: u32 = 1;
pub const EVERYTHING_SORT_NAME_DESCENDING: u32 = 2;
pub const EVERYTHING_SORT_PATH_ASCENDING: u32 = 3;
pub const EVERYTHING_SORT_PATH_DESCENDING: u32 = 4;
pub const EVERYTHING_SORT_SIZE_ASCENDING: u32 = 5;
pub const EVERYTHING_SORT_SIZE_DESCENDING: u32 = 6;
pub const EVERYTHING_SORT_DATE_MODIFIED_ASCENDING: u32 = 13;
pub const EVERYTHING_SORT_DATE_MODIFIED_DESCENDING: u32 = 14;

/// The search epochs: each new search or browse starts a newer epoch, and
/// work tagged with an older one counts as superseded.
pub struct SearchEpochs {
    current: u64,
}

impl SearchEpochs {
    /// The latest epoch started.
    pub closed spec fn latest(&self) -> u64 {
        self.current
    }

    /// No epoch started yet: the current epoch is 0.
    pub fn new() -> (e: Self)
        ensures
            e.latest() == 0,
    {
        SearchEpochs { current: 0 }
    }
}

/// Starts a new search epoch, one after the latest, and returns it.
pub fn next_generation(epochs: &mut SearchEpochs) -> (r: u64)
    requires
        old(epochs).latest() < u64::MAX,
    ensures
        r == old(epochs).latest() + 1,
        final(epochs).latest() == r,
{
    epochs.current = epochs.current + 1;
    epochs.current
}

/// The latest search epoch started.
pub fn current_generation(epochs: &SearchEpochs) -> (r: u64)
    ensures
        r == epochs.latest(),
{
    epochs.current
}

/// Searches with Everything; without it, nothing is found.
pub fn search(query: &str, max: u32, opts: MatchOptions, generation: u64) -> (r: Result<Vec<SearchResult>, SearchError>)
    ensures
        r matches Ok(v) && v.len() == 0,
{
    Ok(Vec::new())
}

/// Lists everything that Everything matches, sorted, telling `on_progress`
/// how many rows it has so far; without Everything, nothing.
pub fn browse<F: FnMut(usize)>(
    query: &str,
    sort: u32,
    max: u32,
    opts: MatchOptions,
    generation: u64,
    on_progress: F,
) -> (r: Result<Vec<BrowseRow>, SearchError>)
    ensures
        r matches Ok(v) && v.len() == 0,
{
    Ok(Vec::new())
}

/// A Windows file time as local "YYYY-MM-DD HH:MM"; without Windows, empty.
pub fn format_mtime(ft: i64) -> (r: String)
    ensures
        r@ == Seq::<char>::empty(),
{
    String::new()
}

/// A path separator of Windows or Unix.
pub open spec fn is_sep(c: char) -> bool {
    c == '\\' || c == '/'
}

/// The length of the part of `s` after its last separator.
pub open spec fn base_len(s: Seq<char>) -> nat
    decreases s.len(),
{
    if s.len() == 0 || is_sep(s.last()) {
        0
    } else {
        1 + base_len(s.drop_last())
    }
}

/// The part of a path after its last separator (the whole path without one).
pub open spec fn basename(s: Seq<char>) -> Seq<char> {
    s.skip(s.len() - base_len(s))
}

proof fn lemma_base_len(s: Seq<char>, j: int)
    requires
        0 <= j <= s.len(),
        forall|k: int| j <= k < s.len() ==> !is_sep(#[trigger] s[k]),
        j == 0 || is_sep(s[j - 1]),
    ensures
        base_len(s) == s.len() - j,
    decreases s.len() - j,
{
    if j < s.len() {
        assert forall|k: int| j <= k < s.drop_last().len() implies !is_sep(#[trigger] s.drop_last()[k]) by {
            assert(s.drop_last()[k] == s[k]);
        }
        if j > 0 {
            assert(s.drop_last()[j - 1] == s[j - 1]);
        }
        lemma_base_len(s.drop_last(), j);
    }
}

/// The lower-cased file name of a path, split at either separator.
pub fn path_basename_lower(path: &str) -> (r: String)
    ensures
        r@ == spec_lowercase(basename(path@)),
{
    let p = to_chars(path);
    let mut j: usize = p.len();
    while j > 0 && p[j - 1] != '\\' && p[j - 1] != '/'
        invariant
            j <= p.len(),
            forall|k: int| j <= k < p.len() ==> !is_sep(#[trigger] p@[k]),
        decreases j,
    {
        j = j - 1;
    }
    proof {
        lemma_base_len(p@, j as int);
    }
    let base = sub_chars(&p, j, p.len());
    assert(base@ =~= basename(path@));
    let base_s = crate::text::chars_to_string(&base);
    lowercase(base_s.as_str())
}


/// The key by which a sort order ranks a row: a number, then text.
pub open spec fn sort_key(r: BrowseRow, sort: u32) -> (int, Seq<char>) {
    if sort == EVERYTHING_SORT_PATH_ASCENDING || sort == EVERYTHING_SORT_PATH_DESCENDING {
        (0, spec_lowercase(r.path@))
    } else if sort == EVERYTHING_SORT_SIZE_ASCENDING || sort == EVERYTHING_SORT_SIZE_DESCENDING {
        (r.size as int, Seq::empty())
    } else if sort == EVERYTHING_SORT_DATE_MODIFIED_ASCENDING || sort == EVERYTHING_SORT_DATE_MODIFIED_DESCENDING {
        (r.mtime as int, Seq::empty())
    } else {
        (0, spec_lowercase(basename(r.path@)))
    }
}

/// Whether a sort order is descending.
pub open spec fn is_descending(sort: u32) -> bool {
    sort == EVERYTHING_SORT_NAME_DESCENDING || sort == EVERYTHING_SORT_PATH_DESCENDING || sort
        == EVERYTHING_SORT_SIZE_DESCENDING || sort == EVERYTHING_SORT_DATE_MODIFIED_DESCENDING
}

/// Key `a` ranks before key `b`.
pub open spec fn key_lt(a: (int, Seq<char>), b: (int, Seq<char>)) -> bool {
    a.0 < b.0 || (a.0 == b.0 && chars_lt(a.1, b.1))
}

proof fn lemma_key_lt_transitive(a: (int, Seq<char>), b: (int, Seq<char>), c: (int, Seq<char>))
    requires
        key_lt(a, b),
        key_lt(b, c),
    ensures
        key_lt(a, c),
{
    if a.0 == b.0 && b.0 == c.0 {
        lemma_chars_lt_transitive(a.1, b.1, c.1);
    }
}

/// The rows are in order of their keys (each ties or ranks before the next).
pub open spec fn sorted_by_key(rows: Seq<BrowseRow>, sort: u32) -> bool {
    forall|i: int, j: int| 0 <= i < j < rows.len() ==> !key_lt(sort_key(#[trigger] rows[j], sort), sort_key(#[trigger] rows[i], sort))
}

/// The rows are in reverse order of their keys.
pub open spec fn sorted_by_key_desc(rows: Seq<BrowseRow>, sort: u32) -> bool {
    forall|i: int, j: int| 0 <= i < j < rows.len() ==> !key_lt(sort_key(#[trigger] rows[i], sort), sort_key(#[trigger] rows[j], sort))
}

/// What each sort order puts first, read off the rows: the date orders rank by
/// the time of the last change, the size orders by size, the path orders by
/// the lower-cased path and the name orders by the lower-cased file name;
/// ascending orders put the smaller first and descending ones the larger.
pub open spec fn ordered_by_field(a: BrowseRow, b: BrowseRow, sort: u32) -> bool {
    &&& sort == EVERYTHING_SORT_DATE_MODIFIED_ASCENDING ==> a.mtime <= b.mtime
    &&& sort == EVERYTHING_SORT_DATE_MODIFIED_DESCENDING ==> a.mtime >= b.mtime
    &&& sort == EVERYTHING_SORT_SIZE_ASCENDING ==> a.size <= b.size
    &&& sort == EVERYTHING_SORT_SIZE_DESCENDING ==> a.size >= b.size
    &&& sort == EVERYTHING_SORT_PATH_ASCENDING ==> !chars_lt(spec_lowercase(b.path@), spec_lowercase(a.path@))
    &&& sort == EVERYTHING_SORT_PATH_DESCENDING ==> !chars_lt(spec_lowercase(a.path@), spec_lowercase(b.path@))
    &&& sort == EVERYTHING_SORT_NAME_ASCENDING ==> !chars_lt(
        spec_lowercase(basename(b.path@)),
        spec_lowercase(basename(a.path@)),
    )
    &&& sort == EVERYTHING_SORT_NAME_DESCENDING ==> !chars_lt(
        spec_lowercase(basename(a.path@)),
        spec_lowercase(basename(b.path@)),
    )
}

/// Rows sorted by an order's key, ascending or descending as the order says,
/// stand in order of the field that the order names: for `i < j`, row `i` has
/// no later change time than row `j` under the ascending date order, no
/// smaller size under the descending size order, and so on.
pub proof fn lemma_sorted_by_field(rows: Seq<BrowseRow>, sort: u32)
    requires
        !is_descending(sort) ==> sorted_by_key(rows, sort),
        is_descending(sort) ==> sorted_by_key_desc(rows, sort),
    ensures
        forall|i: int, j: int|
            0 <= i < j < rows.len() ==> #[trigger] ordered_by_field(rows[i], rows[j], sort),
{
    assert forall|i: int, j: int| 0 <= i < j < rows.len() implies #[trigger] ordered_by_field(
        rows[i],
        rows[j],
        sort,
    ) by {
        let ki = sort_key(rows[i], sort);
        let kj = sort_key(rows[j], sort);
        if is_descending(sort) {
            assert(!key_lt(ki, kj));
        } else {
            assert(!key_lt(kj, ki));
        }
    }
}

/// `idx` sends each place of `out` to a distinct place of `orig` that holds
/// the same row, and rows with equal keys keep the order they had in `orig`.
pub open spec fn stable_order(out: Seq<BrowseRow>, orig: Seq<BrowseRow>, idx: Seq<int>, sort: u32) -> bool {
    &&& idx.len() == out.len() == orig.len()
    &&& forall|k: int| 0 <= k < out.len() ==> 0 <= #[trigger] idx[k] < orig.len() && out[k] == orig[idx[k]]
    &&& forall|a: int, b: int|
        0 <= a < b < out.len() ==> #[trigger] idx[a] != #[trigger] idx[b] && (sort_key(out[a], sort)
            == sort_key(out[b], sort) ==> idx[a] < idx[b])
}

/// The rows read in ascending order of the sort: reversed for a descending one.
pub open spec fn ascending_rows(rows: Seq<BrowseRow>, sort: u32) -> Seq<BrowseRow> {
    if is_descending(sort) {
        rows.reverse()
    } else {
        rows
    }
}

fn key_of(r: &BrowseRow, sort: u32) -> (k: (i128, Vec<char>))
    ensures
        (k.0 as int, k.1@) == sort_key(*r, sort),
{
    if sort == EVERYTHING_SORT_PATH_ASCENDING || sort == EVERYTHING_SORT_PATH_DESCENDING {
        let l = lowercase(r.path.as_str());
        (0, to_chars(l.as_str()))
    } else if sort == EVERYTHING_SORT_SIZE_ASCENDING || sort == EVERYTHING_SORT_SIZE_DESCENDING {
        (r.size as i128, Vec::new())
    } else if sort == EVERYTHING_SORT_DATE_MODIFIED_ASCENDING || sort == EVERYTHING_SORT_DATE_MODIFIED_DESCENDING {
        (r.mtime as i128, Vec::new())
    } else {
        let l = path_basename_lower(r.path.as_str());
        (0, to_chars(l.as_str()))
    }
}

fn key_less(a: &(i128, Vec<char>), b: &(i128, Vec<char>)) -> (r: bool)
    ensures
        r == key_lt((a.0 as int, a.1@), (b.0 as int, b.1@)),
{
    a.0 < b.0 || (a.0 == b.0 && chars_less(&a.1, &b.1))
}

/// Sorts browse rows by the order that `sort` names, keeping the order of
/// rows with equal keys, and reverses them for a descending order: names and
/// paths compare lower-cased, sizes and dates as numbers; any other order sorts by name.
pub fn sort_browse_rows(rows: &mut Vec<BrowseRow>, sort: u32)
    ensures
        final(rows)@.to_multiset() == old(rows)@.to_multiset(),
        !is_descending(sort) ==> sorted_by_key(final(rows)@, sort),
        is_descending(sort) ==> sorted_by_key_desc(final(rows)@, sort),
        forall|i: int, j: int|
            0 <= i < j < final(rows)@.len() ==> #[trigger] ordered_by_field(final(rows)@[i], final(rows)@[j], sort),
        exists|idx: Seq<int>|
            #[trigger] stable_order(ascending_rows(final(rows)@, sort), old(rows)@, idx, sort),
{
    broadcast use vstd::seq_lib::group_to_multiset_ensures;

    let ghost orig = rows@;
    let mut rest: Vec<BrowseRow> = Vec::new();
    std::mem::swap(rows, &mut rest);
    let mut out: Vec<BrowseRow> = Vec::new();
    let mut keys: Vec<(i128, Vec<char>)> = Vec::new();
    let ghost mut i: int = 0;
    let ghost mut idx: Seq<int> = Seq::empty();
    proof {
        assert(orig.take(0) =~= Seq::<BrowseRow>::empty());
        assert(orig.skip(0) =~= orig);
    }
    while rest.len() > 0
        invariant
            0 <= i <= orig.len(),
            rest@ == orig.skip(i),
            out.len() == keys.len(),
            forall|k: int| 0 <= k < out.len() ==> (#[trigger] keys@[k].0 as int, keys@[k].1@) == sort_key(out@[k], sort),
            sorted_by_key(out@, sort),
            out@.to_multiset() == orig.take(i).to_multiset(),
            stable_order(out@, orig.take(i), idx, sort),
        decreases rest.len(),
    {
        let x = rest.remove(0);
        proof {
            assert(x == orig[i]);
            assert(rest@ =~= orig.skip(i + 1));
            assert(orig.take(i + 1) =~= orig.take(i).push(x));
        }
        let kx = key_of(&x, sort);
        let mut pos: usize = 0;
        while pos < keys.len() && !key_less(&kx, &keys[pos])
            invariant
                pos <= keys.len(),
                out.len() == keys.len(),
                forall|k: int| 0 <= k < pos ==> !key_lt(sort_key(x, sort), sort_key(#[trigger] out@[k], sort)),
                forall|k: int| 0 <= k < out.len() ==> (#[trigger] keys@[k].0 as int, keys@[k].1@) == sort_key(out@[k], sort),
                (kx.0 as int, kx.1@) == sort_key(x, sort),
            decreases keys.len() - pos,
        {
            pos = pos + 1;
        }
        let ghost o0 = out@;
        let ghost kv = (kx.0 as int, kx.1@);
        out.insert(pos, x);
        keys.insert(pos, kx);
        proof {
            lemma_stable_insert(o0, orig, idx, i, pos as int, sort);
            idx = idx.insert(pos as int, i);
            assert(out@ == o0.insert(pos as int, x));
            vstd::seq_lib::to_multiset_insert(o0, pos as int, x);
            vstd::seq_lib::to_multiset_build(orig.take(i), x);
            assert(out@.to_multiset() == orig.take(i + 1).to_multiset());
            if (pos as int) < o0.len() {
                assert(key_lt(kv, sort_key(o0[pos as int], sort)));
            }
            assert forall|a: int, b: int| 0 <= a < b < out@.len() implies !key_lt(
                sort_key(#[trigger] out@[b], sort),
                sort_key(#[trigger] out@[a], sort),
            ) by {
                if b < pos {
                    assert(out@[a] == o0[a] && out@[b] == o0[b]);
                } else if b == pos {
                    assert(out@[a] == o0[a]);
                } else if a < pos {
                    assert(out@[a] == o0[a] && out@[b] == o0[b - 1]);
                    if key_lt(sort_key(o0[b - 1], sort), sort_key(o0[a], sort)) {
                    }
                } else if a == pos {
                    assert(out@[b] == o0[b - 1]);
                    if key_lt(sort_key(o0[b - 1], sort), kv) {
                        let p = sort_key(o0[pos as int], sort);
                        assert(key_lt(kv, p));
                        if b - 1 == pos {
                            lemma_key_lt_transitive(sort_key(o0[b - 1], sort), kv, p);
                            lemma_chars_lt_irreflexive(p.1);
                        } else {
                            assert(!key_lt(sort_key(o0[b - 1], sort), p));
                            lemma_key_lt_transitive(sort_key(o0[b - 1], sort), kv, p);
                        }
                    }
                } else {
                    assert(out@[a] == o0[a - 1] && out@[b] == o0[b - 1]);
                }
            }
        }
        proof {
            i = i + 1;
        }
    }
    proof {
        assert(orig.take(orig.len() as int) =~= orig);
        assert(stable_order(out@, orig, idx, sort));
    }
    if is_descending_exec(sort) {
        let ghost asc = out@;
        let mut res: Vec<BrowseRow> = Vec::new();
        while out.len() > 0
            invariant
                out@ == asc.take(out.len() as int),
                res.len() + out.len() == asc.len(),
                forall|k: int| 0 <= k < res.len() ==> #[trigger] res@[k] == asc[asc.len() - 1 - k],
                res@.to_multiset().add(out@.to_multiset()) == asc.to_multiset(),
            decreases out.len(),
        {
            let ghost o0 = out@;
            let ghost r0 = res@;
            let x = out.pop().unwrap();
            res.push(x);
            proof {
                assert(o0 =~= out@.push(x));
                assert(out@ =~= asc.take(out.len() as int));
                assert(res@ == r0.push(x));
                vstd::seq_lib::to_multiset_build(out@, x);
                vstd::seq_lib::to_multiset_build(r0, x);
                assert(res@.to_multiset().add(out@.to_multiset()) =~= r0.to_multiset().add(o0.to_multiset()));
            }
        }
        proof {
            assert(out@ =~= Seq::<BrowseRow>::empty());
            assert forall|a: int, b: int| 0 <= a < b < res@.len() implies !key_lt(
                sort_key(#[trigger] res@[a], sort),
                sort_key(#[trigger] res@[b], sort),
            ) by {
                assert(res@[a] == asc[asc.len() - 1 - a]);
                assert(res@[b] == asc[asc.len() - 1 - b]);
            }
            assert(res@.reverse() =~= asc);
        }
        *rows = res;
        assert(stable_order(ascending_rows(rows@, sort), orig, idx, sort));
    } else {
        *rows = out;
        assert(stable_order(ascending_rows(rows@, sort), orig, idx, sort));
    }
    proof {
        lemma_sorted_by_field(rows@, sort);
    }
}

/// Inserting `orig[i]` at `pos`, just before the first row with a greater key,
/// keeps the order of equal keys.
proof fn lemma_stable_insert(o0: Seq<BrowseRow>, orig: Seq<BrowseRow>, idx: Seq<int>, i: int, pos: int, sort: u32)
    requires
        0 <= i < orig.len(),
        0 <= pos <= o0.len(),
        stable_order(o0, orig.take(i), idx, sort),
        sorted_by_key(o0, sort),
        pos < o0.len() ==> key_lt(sort_key(orig[i], sort), sort_key(o0[pos], sort)),
    ensures
        stable_order(o0.insert(pos, orig[i]), orig.take(i + 1), idx.insert(pos, i), sort),
{
    let out = o0.insert(pos, orig[i]);
    let t = orig.take(i + 1);
    let nidx = idx.insert(pos, i);
    let kv = sort_key(orig[i], sort);
    assert forall|k: int| 0 <= k < out.len() implies 0 <= #[trigger] nidx[k] < t.len() && out[k] == t[nidx[k]] by {
        if k < pos {
            assert(o0[k] == orig.take(i)[idx[k]]);
        } else if k > pos {
            assert(o0[k - 1] == orig.take(i)[idx[k - 1]]);
        }
    }
    assert forall|a: int, b: int| 0 <= a < b < out.len() implies #[trigger] nidx[a] != #[trigger] nidx[b] && (
    sort_key(out[a], sort) == sort_key(out[b], sort) ==> nidx[a] < nidx[b]) by {
        if b < pos {
            assert(nidx[a] == idx[a] && nidx[b] == idx[b]);
        } else if b == pos {
            assert(nidx[a] == idx[a] && idx[a] < i);
        } else if a < pos {
            assert(nidx[a] == idx[a] && nidx[b] == idx[b - 1]);
        } else if a == pos {
            assert(nidx[b] == idx[b - 1] && idx[b - 1] < i);
            assert(out[b] == o0[b - 1]);
            if sort_key(out[b], sort) == kv {
                let p = sort_key(o0[pos], sort);
                assert(key_lt(kv, p));
                if b - 1 == pos {
                    lemma_chars_lt_irreflexive(p.1);
                } else {
                    assert(!key_lt(sort_key(o0[b - 1], sort), p));
                }
            }
        } else {
            assert(nidx[a] == idx[a - 1] && nidx[b] == idx[b - 1]);
            assert(out[a] == o0[a - 1] && out[b] == o0[b - 1]);
        }
    }
}

fn is_descending_exec(sort: u32) -> (r: bool)
    ensures
        r == is_descending(sort),
{
    sort == EVERYTHING_SORT_NAME_DESCENDING || sort == EVERYTHING_SORT_PATH_DESCENDING || sort
        == EVERYTHING_SORT_SIZE_DESCENDING || sort == EVERYTHING_SORT_DATE_MODIFIED_DESCENDING
}


/// The UTF-16 code units of a character.
pub open spec fn utf16_char(c: char) -> Seq<u16> {
    let u = c as int;
    if u < 0x10000 {
        seq![u as u16]
    } else {
        seq![(0xD800 + (u - 0x10000) / 0x400) as u16, (0xDC00 + (u - 0x10000) % 0x400) as u16]
    }
}

/// The UTF-16 encoding of a string (`str::encode_utf16`).
pub open spec fn utf16(s: Seq<char>) -> Seq<u16>
    decreases s.len(),
{
    if s.len() == 0 {
        Seq::empty()
    } else {
        utf16(s.drop_last()) + utf16_char(s.last())
    }
}

/// The query as NUL-terminated UTF-16 for Everything; a blank query becomes
/// `*`, which matches everything.
pub open spec fn spec_query_to_wide(query: Seq<char>) -> Seq<u16> {
    let q = if trim(query).len() == 0 {
        seq!['*']
    } else {
        query
    };
    utf16(q).push(0u16)
}

pub fn query_to_wide(query: &str) -> (r: Vec<u16>)
    ensures
        r@ == spec_query_to_wide(query@),
{
    let qc = to_chars(query);
    let t = trim_chars(&qc);
    let q: Vec<char> = if t.len() == 0 {
        vec!['*']
    } else {
        qc
    };
    assert(q@ == if trim(query@).len() == 0 {
        seq!['*']
    } else {
        query@
    });
    let mut out: Vec<u16> = Vec::new();
    let mut i: usize = 0;
    while i < q.len()
        invariant
            i <= q.len(),
            out@ == utf16(q@.take(i as int)),
        decreases q.len() - i,
    {
        let c = q[i];
        proof {
            crate::text::lemma_char_as_u32(c);
            assert(q@.take(i + 1).drop_last() =~= q@.take(i as int));
            assert(q@.take(i + 1).last() == c);
        }
        let u = c as u32;
        if u < 0x10000 {
            out.push(u as u16);
            assert(out@ =~= utf16(q@.take(i as int)) + utf16_char(c));
        } else {
            let v = u - 0x10000;
            let hi = (0xD800 + v / 0x400) as u16;
            let lo = (0xDC00 + v % 0x400) as u16;
            out.push(hi);
            out.push(lo);
            assert(out@ =~= utf16(q@.take(i as int)) + utf16_char(c));
        }
        i = i + 1;
    }
    assert(q@.take(q.len() as int) =~= q@);
    out.push(0);
    out
}

/// Everything's error code for a failed connection to its service.
pub const EVERYTHING_ERROR_IPC: u32 = 2;

/// The error for Everything's error code after a failed query.
pub fn query_error(code: u32) -> (e: SearchError)
    ensures
        code == EVERYTHING_ERROR_IPC ==> e == SearchError::NotRunning,
        code != EVERYTHING_ERROR_IPC ==> e == SearchError::QueryFailed(code),
{
    if code == EVERYTHING_ERROR_IPC {
        SearchError::NotRunning
    } else {
        SearchError::QueryFailed(code)
    }
}

/// The search result for an entry that Everything reports by name, folder
/// and kind: its path is the folder joined with the name, and a file has the
/// extension of its name.
pub fn search_record(name: String, dir: String, is_file: bool) -> (r: SearchResult)
    ensures
        r.name == name,
        r.path@ == crate::paths::spec_join(dir@, name@),
        r.folder == dir,
        r.is_dir == !is_file,
        r.ext@ == (if is_file {
            match crate::paths::spec_extension(name@) {
                Some(e) => e,
                None => Seq::empty(),
            }
        } else {
            Seq::empty()
        }),
{
    let path = crate::paths::path_join(dir.as_str(), name.as_str());
    let ext = if is_file {
        match crate::paths::path_extension(name.as_str()) {
            Some(e) => e,
            None => String::new(),
        }
    } else {
        String::new()
    };
    SearchResult { name, path, folder: dir, is_dir: !is_file, ext }
}

/// The browse row for an entry that Everything reports by name, folder, kind,
/// size and date; a negative size counts as zero.
pub fn browse_row(name: &str, dir: &str, is_file: bool, size: i64, mtime: i64) -> (r: BrowseRow)
    ensures
        r.path@ == crate::paths::spec_join(dir@, name@),
        r.is_dir == !is_file,
        r.size == (if size > 0 { size as int } else { 0 }),
        r.mtime == mtime,
{
    let path = crate::paths::path_join(dir, name);
    BrowseRow { path, is_dir: !is_file, size: if size > 0 { size as u64 } else { 0 }, mtime }
}

/// An entry of a listing as Everything reports it: its name, its folder,
/// whether it is a file, its size and its date.
#[derive(Debug, Clone)]
pub struct BrowseRecord {
    pub name: String,
    pub dir: String,
    pub is_file: bool,
    pub size: i64,
    pub mtime: i64,
}

/// `row` is the browse row of `rec`: its path joined from folder and name,
/// its kind, its size (a negative one as zero) and its date.
pub open spec fn row_for(row: BrowseRow, rec: BrowseRecord) -> bool {
    &&& row.path@ == crate::paths::spec_join(rec.dir@, rec.name@)
    &&& row.is_dir == !rec.is_file
    &&& row.size == (if rec.size > 0 { rec.size as int } else { 0 })
    &&& row.mtime == rec.mtime
}

/// The rows of a listing, sorted by `sort` as `sort_browse_rows` sorts them.
pub fn browse_rows(records: &Vec<BrowseRecord>, sort: u32) -> (r: Vec<BrowseRow>)
    ensures
        exists|x: (Seq<BrowseRow>, Seq<int>)|
            {
                &&& x.0.len() == records.len()
                &&& forall|k: int| 0 <= k < x.0.len() ==> #[trigger] row_for(x.0[k], records@[k])
                &&& #[trigger] stable_order(ascending_rows(r@, sort), x.0, x.1, sort)
                &&& r@.to_multiset() == x.0.to_multiset()
                &&& (!is_descending(sort) ==> sorted_by_key(r@, sort))
                &&& (is_descending(sort) ==> sorted_by_key_desc(r@, sort))
            },
{
    let mut rows: Vec<BrowseRow> = Vec::new();
    let mut k: usize = 0;
    while k < records.len()
        invariant
            k <= records.len(),
            rows.len() == k,
            forall|j: int| 0 <= j < k ==> #[trigger] row_for(rows@[j], records@[j]),
        decreases records.len() - k,
    {
        let rec = &records[k];
        let row = browse_row(rec.name.as_str(), rec.dir.as_str(), rec.is_file, rec.size, rec.mtime);
        rows.push(row);
        k = k + 1;
    }
    let ghost built = rows@;
    sort_browse_rows(&mut rows, sort);
    proof {
        let idx = choose|idx: Seq<int>| #[trigger] stable_order(ascending_rows(rows@, sort), built, idx, sort);
        let x = (built, idx);
        assert(stable_order(ascending_rows(rows@, sort), x.0, x.1, sort));
        assert forall|j: int| 0 <= j < x.0.len() implies #[trigger] row_for(x.0[j], records@[j]) by {
            assert(row_for(built[j], records@[j]));
        }
    }
    rows
}

} // verus!
