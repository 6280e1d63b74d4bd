//! Listing a folder for the column view: the filters taken from the query,
//! the scored entries, and their order (folders first, then by name).

use crate::parser::{parse_query, spec_extensions, spec_keywords};
use crate::paths::{opt_chars, path_extension, spec_extension};
use crate::scoring::{score_path, spec_score_path};
use crate::text::{
    chars_less, chars_lt, lemma_chars_lt_irreflexive, lemma_chars_lt_transitive, lowercase, push_lit,
    spec_lowercase, sviews, to_chars, chars_to_string, trim, trim_chars,
};
use crate::semantic::lower_keywords;
use vstd::prelude::*;

verus! {

/// An entry of a folder listing.
#[derive(Debug, Clone)]
pub struct DirEntryResult {
    pub name: String,
    pub path: String,
    pub folder: String,
    pub is_dir: bool,
    pub ext: String,
    /// The score for the query, in units of `1 / SCORE_SCALE` (0 without a query).
    pub score: i64,
}

/// The keywords (lower-cased) and extensions of a non-blank query; none for
/// no query or a blank one.
pub fn directory_filters(query: Option<String>) -> (r: (Vec<String>, Vec<String>))
    ensures
        match query {
            Some(q) => if trim(q@).len() > 0 {
                &&& sviews(r.0@) == spec_keywords(q@).map_values(|k: Seq<char>| spec_lowercase(k))
                &&& sviews(r.1@) == spec_extensions(spec_lowercase(q@))
            } else {
                r.0.len() == 0 && r.1.len() == 0
            },
            None => r.0.len() == 0 && r.1.len() == 0,
        },
{
    match query {
        Some(q) => {
            let qc = to_chars(q.as_str());
            let t = trim_chars(&qc);
            if t.len() == 0 {
                return (Vec::new(), Vec::new());
            }
            let parsed = parse_query(q.as_str());
            let keywords = lower_keywords(&parsed.keywords);
            (keywords, parsed.extensions)
        },
        None => (Vec::new(), Vec::new()),
    }
}

/// A bare drive letter such as `C:` (two bytes, the second a colon) means
/// the drive's current folder on Windows; the listing wants the drive's root,
/// `C:\`.
pub open spec fn spec_normalize_dir(path: Seq<char>) -> Seq<char> {
    if path.len() == 2 && (path[0] as int) < 0x80 && path[1] == ':' {
        path + "\\"@
    } else {
        path
    }
}

pub fn normalize_dir(path: &str) -> (r: String)
    ensures
        r@ == spec_normalize_dir(path@),
{
    let pc = to_chars(path);
    proof {
        if pc@.len() == 2 {
            crate::text::lemma_char_as_u32(pc@[0]);
        }
    }
    if pc.len() == 2 && (pc[0] as u32) < 0x80 && pc[1] == ':' {
        let mut out = pc;
        push_lit(&mut out, "\\");
        chars_to_string(&out)
    } else {
        path.to_owned()
    }
}

/// `e` is the entry for a path with this name, kind and folder, scored for
/// the keywords and extensions; a folder has no extension.
pub open spec fn entry_for(
    e: DirEntryResult,
    name: Seq<char>,
    path: Seq<char>,
    folder: Seq<char>,
    is_dir: bool,
    keywords: Seq<Seq<char>>,
    extensions: Seq<Seq<char>>,
) -> bool {
    &&& e.name@ == name
    &&& e.path@ == path
    &&& e.folder@ == folder
    &&& e.is_dir == is_dir
    &&& e.ext@ == (if is_dir {
        Seq::empty()
    } else {
        match spec_extension(path) {
            Some(x) => x,
            None => Seq::empty(),
        }
    })
    &&& e.score == spec_score_path(path, keywords, extensions)
}

pub fn dir_entry(
    name: String,
    path: String,
    folder: String,
    is_dir: bool,
    keywords: &Vec<String>,
    extensions: &Vec<String>,
) -> (e: DirEntryResult)
    ensures
        entry_for(e, name@, path@, folder@, is_dir, sviews(keywords@), sviews(extensions@)),
{
    let ext = if is_dir {
        String::new()
    } else {
        match path_extension(path.as_str()) {
            Some(x) => x,
            None => String::new(),
        }
    };
    let score = score_path(path.as_str(), keywords.as_slice(), extensions.as_slice());
    DirEntryResult { name, path, folder, is_dir, ext, score }
}

/// Entry `a` is listed before entry `b`: a folder before a file, then by
/// lower-cased name.
pub open spec fn listed_before(a: DirEntryResult, b: DirEntryResult) -> bool {
    (a.is_dir && !b.is_dir) || (a.is_dir == b.is_dir && chars_lt(spec_lowercase(a.name@), spec_lowercase(b.name@)))
}

proof fn lemma_listed_before_transitive(a: DirEntryResult, b: DirEntryResult, c: DirEntryResult)
    requires
        listed_before(a, b),
        listed_before(b, c),
    ensures
        listed_before(a, c),
{
    if a.is_dir == b.is_dir && b.is_dir == c.is_dir {
        lemma_chars_lt_transitive(spec_lowercase(a.name@), spec_lowercase(b.name@), spec_lowercase(c.name@));
    }
}

/// No entry comes before one that it should follow.
pub open spec fn listing_sorted(s: Seq<DirEntryResult>) -> bool {
    forall|i: int, j: int| 0 <= i < j < s.len() ==> !listed_before(#[trigger] s[j], #[trigger] s[i])
}

/// Two entries tie in the listing order: both folders or both files, with
/// the same lower-cased name.
pub open spec fn listing_tie(a: DirEntryResult, b: DirEntryResult) -> bool {
    a.is_dir == b.is_dir && spec_lowercase(a.name@) == spec_lowercase(b.name@)
}

/// `idx` sends each place of `out` to a distinct place of `orig` that holds
/// the same entry, and entries that tie keep the order they had in `orig`.
pub open spec fn listing_stable(out: Seq<DirEntryResult>, orig: Seq<DirEntryResult>, idx: Seq<int>) -> bool {
    &&& idx.len() == out.len() == orig.len()
    &&& forall|k: int| 0 <= k < out.len() ==> 0 <= #[trigger] idx[k] < orig.len() && out[k] == orig[idx[k]]
    &&& forall|a: int, b: int|
        0 <= a < b < out.len() ==> #[trigger] idx[a] != #[trigger] idx[b] && (listing_tie(out[a], out[b])
            ==> idx[a] < idx[b])
}

/// Inserting `orig[i]` at `pos`, just before the first entry it is listed
/// before, keeps the order of entries that tie.
proof fn lemma_listing_insert(o0: Seq<DirEntryResult>, orig: Seq<DirEntryResult>, idx: Seq<int>, i: int, pos: int)
    requires
        0 <= i < orig.len(),
        0 <= pos <= o0.len(),
        listing_stable(o0, orig.take(i), idx),
        listing_sorted(o0),
        pos < o0.len() ==> listed_before(orig[i], o0[pos]),
    ensures
        listing_stable(o0.insert(pos, orig[i]), orig.take(i + 1), idx.insert(pos, i)),
{
    let out = o0.insert(pos, orig[i]);
    let t = orig.take(i + 1);
    let nidx = idx.insert(pos, i);
    let x = orig[i];
    assert forall|k: int| 0 <= k < out.len() implies 0 <= #[trigger] nidx[k] < t.len() && out[k] == t[nidx[k]] by {
        if k < pos {
            assert(o0[k] == orig.take(i)[idx[k]]);
        } else if k > pos {
            assert(o0[k - 1] == orig.take(i)[idx[k - 1]]);
        }
    }
    assert forall|a: int, b: int| 0 <= a < b < out.len() implies #[trigger] nidx[a] != #[trigger] nidx[b] && (
    listing_tie(out[a], out[b]) ==> nidx[a] < nidx[b]) by {
        if b < pos {
            assert(nidx[a] == idx[a] && nidx[b] == idx[b]);
        } else if b == pos {
            assert(nidx[a] == idx[a] && idx[a] < i);
        } else if a < pos {
            assert(nidx[a] == idx[a] && nidx[b] == idx[b - 1]);
        } else if a == pos {
            assert(nidx[b] == idx[b - 1] && idx[b - 1] < i);
            assert(out[b] == o0[b - 1]);
            if listing_tie(x, o0[b - 1]) {
                let p = o0[pos];
                if b - 1 == pos {
                    lemma_chars_lt_irreflexive(spec_lowercase(p.name@));
                } else {
                    assert(!listed_before(o0[b - 1], p));
                }
            }
        } else {
            assert(nidx[a] == idx[a - 1] && nidx[b] == idx[b - 1]);
            assert(out[a] == o0[a - 1] && out[b] == o0[b - 1]);
        }
    }
}

/// Orders the entries: folders first, then by lower-cased name, keeping the
/// order of entries that tie.
pub fn sort_entries(entries: Vec<DirEntryResult>) -> (r: Vec<DirEntryResult>)
    ensures
        r@.to_multiset() == entries@.to_multiset(),
        listing_sorted(r@),
        forall|i: int, j: int|
            #![trigger r@[i], r@[j]]
            0 <= i < j < r@.len() ==> (r@[j].is_dir ==> r@[i].is_dir) && (r@[i].is_dir == r@[j].is_dir
                ==> !chars_lt(spec_lowercase(r@[j].name@), spec_lowercase(r@[i].name@))),
        exists|idx: Seq<int>| #[trigger] listing_stable(r@, entries@, idx),
{
    broadcast use vstd::seq_lib::group_to_multiset_ensures;

    let ghost orig = entries@;
    let mut rest = entries;
    let mut out: Vec<DirEntryResult> = Vec::new();
    let mut keys: Vec<Vec<char>> = Vec::new();
    let ghost mut i: int = 0;
    let ghost mut idx: Seq<int> = Seq::empty();
    proof {
        assert(orig.take(0) =~= Seq::<DirEntryResult>::empty());
        assert(orig.skip(0) =~= orig);
    }
    while rest.len() > 0
        invariant
            0 <= i <= orig.len(),
            rest@ == orig.skip(i),
            out.len() == keys.len(),
            forall|k: int| 0 <= k < out.len() ==> (#[trigger] keys@[k])@ == spec_lowercase(out@[k].name@),
            listing_sorted(out@),
            out@.to_multiset() == orig.take(i).to_multiset(),
            listing_stable(out@, orig.take(i), idx),
        decreases rest.len(),
    {
        let x = rest.remove(0);
        proof {
            assert(x == orig[i]);
            assert(rest@ =~= orig.skip(i + 1));
            assert(orig.take(i + 1) =~= orig.take(i).push(x));
        }
        let kl = lowercase(x.name.as_str());
        let kx = to_chars(kl.as_str());
        let mut pos: usize = 0;
        while pos < out.len() && !(x.is_dir && !out[pos].is_dir) && !(x.is_dir == out[pos].is_dir && chars_less(&kx, &keys[pos]))
            invariant
                pos <= out.len(),
                out.len() == keys.len(),
                kx@ == spec_lowercase(x.name@),
                forall|k: int| 0 <= k < out.len() ==> (#[trigger] keys@[k])@ == spec_lowercase(out@[k].name@),
                forall|k: int| 0 <= k < pos ==> !listed_before(x, #[trigger] out@[k]),
            decreases out.len() - pos,
        {
            pos = pos + 1;
        }
        let ghost o0 = out@;
        out.insert(pos, x);
        keys.insert(pos, kx);
        proof {
            assert(out@ == o0.insert(pos as int, x));
            lemma_listing_insert(o0, orig, idx, i, pos as int);
            idx = idx.insert(pos as int, i);
            vstd::seq_lib::to_multiset_insert(o0, pos as int, x);
            vstd::seq_lib::to_multiset_build(orig.take(i), x);
            if (pos as int) < o0.len() {
                assert(listed_before(x, o0[pos as int]));
            }
            assert forall|a: int, b: int| 0 <= a < b < out@.len() implies !listed_before(#[trigger] out@[b], #[trigger] out@[a]) by {
                if b < pos {
                    assert(out@[a] == o0[a] && out@[b] == o0[b]);
                } else if b == pos {
                    assert(out@[a] == o0[a]);
                } else if a < pos {
                    assert(out@[a] == o0[a] && out@[b] == o0[b - 1]);
                } else if a == pos {
                    assert(out@[b] == o0[b - 1]);
                    if listed_before(o0[b - 1], x) {
                        let p = o0[pos as int];
                        lemma_listed_before_transitive(o0[b - 1], x, p);
                        if b - 1 == pos {
                            lemma_chars_lt_irreflexive(spec_lowercase(p.name@));
                        }
                    }
                } else {
                    assert(out@[a] == o0[a - 1] && out@[b] == o0[b - 1]);
                }
            }
            i = i + 1;
        }
    }
    proof {
        assert(orig.take(orig.len() as int) =~= orig);
        assert(listing_stable(out@, orig, idx));
        assert forall|a: int, b: int| 0 <= a < b < out@.len() implies (out@[b].is_dir ==> out@[a].is_dir) && (
        out@[a].is_dir == out@[b].is_dir ==> !chars_lt(spec_lowercase(out@[b].name@), spec_lowercase(out@[a].name@))) by {
            assert(!listed_before(out@[b], out@[a]));
        }
    }
    out
}

} // verus!
