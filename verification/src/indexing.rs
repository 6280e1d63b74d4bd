//! Planning the incremental indexing of folder embeddings: which folders to
//! embed anew, which to skip, and which records to remove.

use crate::folder_matrix::FolderIndexStats;
use crate::text::sviews;
use vstd::prelude::*;

verus! {

/// A folder met while walking the tree: its path (none when the path is not
/// UTF-8), its file name (none when it has none), its modification time, and
/// the time stored with its embedding (none when it has no record).
#[derive(Debug, Clone)]
pub struct ScannedFolder {
    pub path: Option<String>,
    pub name: Option<String>,
    pub mtime: i64,
    pub stored_mtime: Option<i64>,
}

/// A folder whose embedding is to be computed: its path, the text embedded
/// (its name), and its modification time.
#[derive(Debug, Clone)]
pub struct PendingFolder {
    pub path: String,
    pub name: String,
    pub mtime: i64,
}

/// A folder is embedded anew unless its path is not UTF-8 or its stored time
/// equals its time.
pub open spec fn needs_embedding(s: ScannedFolder) -> bool {
    s.path is Some && s.stored_mtime != Some(s.mtime)
}

/// A folder whose record is up to date.
pub open spec fn is_fresh(s: ScannedFolder) -> bool {
    s.path is Some && s.stored_mtime == Some(s.mtime)
}

/// The plan for the scanned folders: the folders to embed, in order, each
/// named by its file name or else its path.
pub open spec fn pending_of(scans: Seq<ScannedFolder>) -> Seq<(Seq<char>, Seq<char>, i64)>
    decreases scans.len(),
{
    if scans.len() == 0 {
        Seq::empty()
    } else {
        let before = pending_of(scans.drop_last());
        let s = scans.last();
        if needs_embedding(s) {
            let p = s.path->0@;
            let name = match s.name {
                Some(n) => n@,
                None => p,
            };
            before.push((p, name, s.mtime))
        } else {
            before
        }
    }
}

/// The paths of the scanned folders that are UTF-8, in order.
pub open spec fn seen_of(scans: Seq<ScannedFolder>) -> Seq<Seq<char>>
    decreases scans.len(),
{
    if scans.len() == 0 {
        Seq::empty()
    } else {
        let before = seen_of(scans.drop_last());
        match scans.last().path {
            Some(p) => before.push(p@),
            None => before,
        }
    }
}

/// The number of scanned folders whose record is up to date.
pub open spec fn fresh_count(scans: Seq<ScannedFolder>) -> nat
    decreases scans.len(),
{
    if scans.len() == 0 {
        0
    } else {
        fresh_count(scans.drop_last()) + if is_fresh(scans.last()) {
            1nat
        } else {
            0nat
        }
    }
}

pub open spec fn pending_view(p: PendingFolder) -> (Seq<char>, Seq<char>, i64) {
    (p.path@, p.name@, p.mtime)
}

/// Plans an indexing run over the scanned folders: the folders to embed, the
/// paths seen, and the counts of folders scanned and skipped.
pub fn plan_folders(scans: &Vec<ScannedFolder>) -> (r: (Vec<PendingFolder>, Vec<String>, FolderIndexStats))
    ensures
        r.0@.map_values(|p: PendingFolder| pending_view(p)) == pending_of(scans@),
        sviews(r.1@) == seen_of(scans@),
        r.2.scanned == scans.len(),
        r.2.skipped == fresh_count(scans@),
        r.2.updated == 0,
        r.2.removed == 0,
{
    let mut pending: Vec<PendingFolder> = Vec::new();
    let mut seen: Vec<String> = Vec::new();
    let mut scanned: usize = 0;
    let mut skipped: usize = 0;
    let mut k: usize = 0;
    while k < scans.len()
        invariant
            k <= scans.len(),
            scanned == k,
            skipped == fresh_count(scans@.take(k as int)),
            skipped <= k,
            pending@.map_values(|p: PendingFolder| pending_view(p)) == pending_of(scans@.take(k as int)),
            sviews(seen@) == seen_of(scans@.take(k as int)),
        decreases scans.len() - k,
    {
        let s = &scans[k];
        let ghost t = scans@.take(k + 1);
        proof {
            assert(t.drop_last() =~= scans@.take(k as int));
            assert(t.last() == scans@[k as int]);
        }
        scanned = scanned + 1;
        match &s.path {
            None => {},
            Some(p) => {
                let ghost s0 = sviews(seen@);
                seen.push(p.clone());
                assert(sviews(seen@) =~= s0.push(p@));
                let fresh = match s.stored_mtime {
                    Some(m) => m == s.mtime,
                    None => false,
                };
                if fresh {
                    skipped = skipped + 1;
                } else {
                    let name = match &s.name {
                        Some(n) => n.clone(),
                        None => p.clone(),
                    };
                    let ghost p0 = pending@.map_values(|p: PendingFolder| pending_view(p));
                    let item = PendingFolder { path: p.clone(), name, mtime: s.mtime };
                    let ghost iv = pending_view(item);
                    pending.push(item);
                    assert(pending@.map_values(|p: PendingFolder| pending_view(p)) =~= p0.push(iv));
                }
            },
        }
        k = k + 1;
    }
    proof {
        assert(scans@.take(scans.len() as int) =~= scans@);
    }
    (pending, seen, FolderIndexStats { updated: 0, skipped, scanned, removed: 0 })
}

/// The stored folders that the scan did not see, in the order given.
pub fn stale_folders(existing: &Vec<String>, seen: &Vec<String>) -> (r: Vec<String>)
    ensures
        sviews(r@) == sviews(existing@).filter(|p: Seq<char>| !sviews(seen@).contains(p)),
{
    let ghost pred = |p: Seq<char>| !sviews(seen@).contains(p);
    let mut out: Vec<String> = Vec::new();
    let mut k: usize = 0;
    while k < existing.len()
        invariant
            k <= existing.len(),
            pred == (|p: Seq<char>| !sviews(seen@).contains(p)),
            sviews(out@) == sviews(existing@).take(k as int).filter(pred),
        decreases existing.len() - k,
    {
        let e = &existing[k];
        let mut found = false;
        let mut j: usize = 0;
        while j < seen.len()
            invariant
                j <= seen.len(),
                found == sviews(seen@).take(j as int).contains(e@),
            decreases seen.len() - j,
        {
            let same = *e == seen[j];
            proof {
                let s = sviews(seen@);
                let t0 = s.take(j as int);
                let t1 = s.take(j + 1);
                assert(t1 =~= t0.push(s[j as int]));
                if t0.contains(e@) {
                    let w = choose|w: int| 0 <= w < t0.len() && #[trigger] t0[w] == e@;
                    assert(t1[w] == e@);
                }
                if t1.contains(e@) && !t0.contains(e@) {
                    let w = choose|w: int| 0 <= w < t1.len() && #[trigger] t1[w] == e@;
                    if w < j {
                        assert(t0[w] == e@);
                    }
                }
                if same {
                    assert(t1[j as int] == e@);
                }
            }
            found = found || same;
            j = j + 1;
        }
        proof {
            assert(sviews(seen@).take(seen.len() as int) =~= sviews(seen@));
            let ex = sviews(existing@);
            assert(ex.take(k + 1) =~= ex.take(k as int).push(ex[k as int]));
            ex.take(k as int).lemma_filter_push(ex[k as int], pred);
        }
        if !found {
            let ghost o0 = sviews(out@);
            out.push(e.clone());
            assert(sviews(out@) =~= o0.push(e@));
        }
        k = k + 1;
    }
    assert(sviews(existing@).take(existing.len() as int) =~= sviews(existing@));
    out
}

/// The batches of `n` items, `batch` at a time (at least one at a time), as
/// ranges `[start, end)`.
pub fn batch_ranges(n: usize, batch: usize) -> (r: Vec<(usize, usize)>)
    ensures
        forall|k: int| 0 <= k < r.len() ==> {
            &&& (#[trigger] r[k]).0 < r[k].1 <= n
            &&& r[k].1 - r[k].0 <= (if batch > 0 { batch as int } else { 1 })
            &&& (r[k].1 < n ==> r[k].1 - r[k].0 == (if batch > 0 { batch as int } else { 1 }))
        },
        forall|k: int| 0 <= k < r.len() ==> r[k].0 == (if k == 0 { 0 } else { r[k - 1].1 }),
        n > 0 ==> r.len() > 0 && r[r.len() - 1].1 == n,
        n == 0 ==> r.len() == 0,
{
    let size = if batch > 0 {
        batch
    } else {
        1
    };
    let mut out: Vec<(usize, usize)> = Vec::new();
    let mut start: usize = 0;
    while start < n
        invariant
            start <= n,
            size >= 1,
            size == (if batch > 0 { batch } else { 1 }),
            out.len() == 0 <==> start == 0,
            out.len() > 0 ==> out[out.len() - 1].1 == start,
            forall|k: int| 0 <= k < out.len() ==> {
                &&& (#[trigger] out[k]).0 < out[k].1 <= start
                &&& out[k].1 - out[k].0 <= size
                &&& (out[k].1 < n ==> out[k].1 - out[k].0 == size)
            },
            forall|k: int| 0 <= k < out.len() ==> out[k].0 == (if k == 0 { 0 } else { out[k - 1].1 }),
        decreases n - start,
    {
        let end = if n - start > size {
            start + size
        } else {
            n
        };
        out.push((start, end));
        start = end;
    }
    out
}

} // verus!
