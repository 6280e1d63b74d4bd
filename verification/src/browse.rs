//! Browse sessions: the sorted listing of everything that a query matches is
//! kept in a snapshot, and the viewer fetches windows of it.

use crate::everything::{
    format_mtime, is_descending, BrowseRow, SearchError, EVERYTHING_SORT_DATE_MODIFIED_ASCENDING,
    EVERYTHING_SORT_DATE_MODIFIED_DESCENDING, EVERYTHING_SORT_NAME_ASCENDING, EVERYTHING_SORT_NAME_DESCENDING,
    EVERYTHING_SORT_PATH_ASCENDING, EVERYTHING_SORT_PATH_DESCENDING, EVERYTHING_SORT_SIZE_ASCENDING,
    EVERYTHING_SORT_SIZE_DESCENDING,
};
use crate::paths::{opt_chars, path_extension, path_file_name, path_parent, spec_extension, spec_file_name, spec_parent};
use crate::text::{eq_lit, to_chars};
use vstd::prelude::*;

verus! {

/// The snapshot of the last browse: its search epoch and its sorted rows.
pub struct BrowseState {
    pub generation: u64,
    pub rows: Vec<BrowseRow>,
}

/// The most rows a browse fetches.
pub const BROWSE_MAX: u32 = 2_000_000;

/// The sort that the viewer asks for: a column ("name", "folder", "size" or
/// "date") and a direction.
#[derive(Debug)]
pub struct BrowseSort {
    pub col: String,
    pub asc: bool,
}

/// Progress of a browse: rows found so far and milliseconds since it started.
#[derive(Debug, Clone)]
pub struct BrowseProgress {
    pub count: usize,
    pub elapsed_ms: u64,
}

/// What a browse reports: the number of rows and the epoch of its snapshot.
#[derive(Debug, Clone)]
pub struct BrowseResult {
    pub total: usize,
    pub generation: u64,
}

/// A row as the viewer shows it.
#[derive(Debug)]
pub struct WindowRow {
    pub name: String,
    pub path: String,
    pub folder: String,
    pub is_dir: bool,
    pub ext: String,
    pub size: u64,
    pub modified: String,
}

/// The Everything sort order for a column and direction; an unknown column
/// sorts by name.
pub open spec fn spec_sort_const(col: Seq<char>, asc: bool) -> u32 {
    if col == "name"@ {
        if asc { EVERYTHING_SORT_NAME_ASCENDING } else { EVERYTHING_SORT_NAME_DESCENDING }
    } else if col == "folder"@ {
        if asc { EVERYTHING_SORT_PATH_ASCENDING } else { EVERYTHING_SORT_PATH_DESCENDING }
    } else if col == "size"@ {
        if asc { EVERYTHING_SORT_SIZE_ASCENDING } else { EVERYTHING_SORT_SIZE_DESCENDING }
    } else if col == "date"@ {
        if asc { EVERYTHING_SORT_DATE_MODIFIED_ASCENDING } else { EVERYTHING_SORT_DATE_MODIFIED_DESCENDING }
    } else {
        if asc { EVERYTHING_SORT_NAME_ASCENDING } else { EVERYTHING_SORT_NAME_DESCENDING }
    }
}

pub fn sort_const(col: &str, asc: bool) -> (r: u32)
    ensures
        r == spec_sort_const(col@, asc),
{
    let c = to_chars(col);
    if eq_lit(&c, "name") {
        if asc { EVERYTHING_SORT_NAME_ASCENDING } else { EVERYTHING_SORT_NAME_DESCENDING }
    } else if eq_lit(&c, "folder") {
        if asc { EVERYTHING_SORT_PATH_ASCENDING } else { EVERYTHING_SORT_PATH_DESCENDING }
    } else if eq_lit(&c, "size") {
        if asc { EVERYTHING_SORT_SIZE_ASCENDING } else { EVERYTHING_SORT_SIZE_DESCENDING }
    } else if eq_lit(&c, "date") {
        if asc { EVERYTHING_SORT_DATE_MODIFIED_ASCENDING } else { EVERYTHING_SORT_DATE_MODIFIED_DESCENDING }
    } else {
        if asc { EVERYTHING_SORT_NAME_ASCENDING } else { EVERYTHING_SORT_NAME_DESCENDING }
    }
}

/// Each column picks its own kind of order and the direction asked for:
/// ascending gives an ascending order and descending a descending one, for
/// every column; "folder" sorts by path, "size" by size, "date" by the date
/// modified, and "name" or any other column by name.
pub proof fn lemma_sort_const_columns(col: Seq<char>, asc: bool)
    ensures
        is_descending(spec_sort_const(col, asc)) == !asc,
        col == "folder"@ ==> spec_sort_const(col, asc) == (if asc {
            EVERYTHING_SORT_PATH_ASCENDING
        } else {
            EVERYTHING_SORT_PATH_DESCENDING
        }),
        col == "size"@ ==> spec_sort_const(col, asc) == (if asc {
            EVERYTHING_SORT_SIZE_ASCENDING
        } else {
            EVERYTHING_SORT_SIZE_DESCENDING
        }),
        col == "date"@ ==> spec_sort_const(col, asc) == (if asc {
            EVERYTHING_SORT_DATE_MODIFIED_ASCENDING
        } else {
            EVERYTHING_SORT_DATE_MODIFIED_DESCENDING
        }),
        col != "folder"@ && col != "size"@ && col != "date"@ ==> spec_sort_const(col, asc) == (if asc {
            EVERYTHING_SORT_NAME_ASCENDING
        } else {
            EVERYTHING_SORT_NAME_DESCENDING
        }),
{
    reveal_strlit("name");
    reveal_strlit("folder");
    reveal_strlit("size");
    reveal_strlit("date");
    assert("name"@ != "folder"@) by {
        assert("name"@.len() != "folder"@.len());
    }
    assert("name"@ != "size"@) by {
        assert("name"@[0] != "size"@[0]);
    }
    assert("name"@ != "date"@) by {
        assert("name"@[0] != "date"@[0]);
    }
    assert("folder"@ != "size"@) by {
        assert("folder"@.len() != "size"@.len());
    }
    assert("folder"@ != "date"@) by {
        assert("folder"@.len() != "date"@.len());
    }
    assert("size"@ != "date"@) by {
        assert("size"@[0] != "date"@[0]);
    }
}

/// The characters of an optional string, or none.
pub open spec fn or_empty(o: Option<Seq<char>>) -> Seq<char> {
    match o {
        Some(s) => s,
        None => Seq::empty(),
    }
}

/// `w` shows row `r`: its file name, path, folder, kind, extension (none for
/// a folder), size, and no date on this platform.
pub open spec fn shows_row(w: WindowRow, r: BrowseRow) -> bool {
    &&& w.name@ == or_empty(spec_file_name(r.path@))
    &&& w.path@ == r.path@
    &&& w.folder@ == or_empty(spec_parent(r.path@))
    &&& w.is_dir == r.is_dir
    &&& w.ext@ == (if r.is_dir { Seq::empty() } else { or_empty(spec_extension(r.path@)) })
    &&& w.size == r.size
    &&& w.modified@ == Seq::<char>::empty()
}

fn or_new(o: Option<String>) -> (r: String)
    ensures
        r@ == or_empty(opt_chars(o)),
{
    match o {
        Some(s) => s,
        None => String::new(),
    }
}

fn window_row(row: &BrowseRow) -> (w: WindowRow)
    ensures
        shows_row(w, *row),
{
    let name = or_new(path_file_name(row.path.as_str()));
    let folder = or_new(path_parent(row.path.as_str()));
    let ext = if row.is_dir {
        String::new()
    } else {
        or_new(path_extension(row.path.as_str()))
    };
    WindowRow {
        name,
        path: row.path.clone(),
        folder,
        is_dir: row.is_dir,
        ext,
        size: row.size,
        modified: format_mtime(row.mtime),
    }
}

/// The snapshot rows that a window read returns: `[offset, offset + limit)`
/// clipped to the end; none when the epoch is not the snapshot's or the
/// offset lies past the end.
pub open spec fn window_rows(state: BrowseState, offset: int, limit: int, generation: u64) -> Seq<BrowseRow> {
    if state.generation != generation || offset >= state.rows.len() {
        Seq::empty()
    } else {
        state.rows@.subrange(
            offset,
            if offset + limit <= state.rows.len() {
                offset + limit
            } else {
                state.rows.len() as int
            },
        )
    }
}

/// Reading two adjacent windows gives the rows of the window that spans
/// both: paging through a snapshot skips and repeats nothing.
pub proof fn lemma_adjacent_windows(state: BrowseState, offset: int, a: int, b: int, generation: u64)
    requires
        0 <= offset,
        0 <= a,
        0 <= b,
    ensures
        window_rows(state, offset, a, generation) + window_rows(state, offset + a, b, generation) == window_rows(
            state,
            offset,
            a + b,
            generation,
        ),
{
    let n = state.rows.len() as int;
    if state.generation == generation && offset < n {
        if offset + a < n {
            let e = if offset + a + b <= n { offset + a + b } else { n };
            assert(state.rows@.subrange(offset, offset + a) + state.rows@.subrange(offset + a, e)
                =~= state.rows@.subrange(offset, e));
        } else {
            assert(window_rows(state, offset + a, b, generation) =~= Seq::<BrowseRow>::empty());
            assert(window_rows(state, offset, a, generation) + Seq::<BrowseRow>::empty() =~= window_rows(
                state,
                offset,
                a,
                generation,
            ));
        }
    } else {
        assert(Seq::<BrowseRow>::empty() + Seq::<BrowseRow>::empty() =~= Seq::<BrowseRow>::empty());
    }
}

/// After a browse settles, a read from the start of the snapshot in the
/// browse's epoch, as long as the total it reported, returns every row it found.
pub proof fn lemma_settled_snapshot(state: BrowseState, rows: Seq<BrowseRow>, generation: u64)
    requires
        state.generation == generation,
        state.rows@ == rows,
    ensures
        window_rows(state, 0, rows.len() as int, generation) == rows,
{
    if rows.len() > 0 {
        assert(rows.subrange(0, rows.len() as int) =~= rows);
    } else {
        assert(rows =~= Seq::<BrowseRow>::empty());
    }
}

/// The rows `[offset, offset + limit)` of the snapshot, clipped to its end,
/// as the viewer shows them; none when the viewer's epoch is not the
/// snapshot's or the offset lies past the end.
pub fn fetch_window(state: &BrowseState, offset: usize, limit: usize, generation: u64) -> (r: Vec<WindowRow>)
    ensures
        r.len() == window_rows(*state, offset as int, limit as int, generation).len(),
        forall|k: int| 0 <= k < r.len() ==> shows_row(#[trigger] r[k], window_rows(*state, offset as int, limit as int, generation)[k]),
{
    if state.generation != generation || offset >= state.rows.len() {
        return Vec::new();
    }
    let end = if limit <= state.rows.len() - offset {
        offset + limit
    } else {
        state.rows.len()
    };
    let mut out: Vec<WindowRow> = Vec::new();
    let mut k: usize = offset;
    while k < end
        invariant
            offset <= k <= end <= state.rows.len(),
            out.len() == k - offset,
            forall|j: int| 0 <= j < out.len() ==> shows_row(#[trigger] out[j], state.rows[offset + j]),
        decreases end - k,
    {
        out.push(window_row(&state.rows[k]));
        k = k + 1;
    }
    proof {
        let w = window_rows(*state, offset as int, limit as int, generation);
        assert(w =~= state.rows@.subrange(offset as int, end as int));
        assert forall|k: int| 0 <= k < out.len() implies shows_row(#[trigger] out[k], w[k]) by {
            assert(w[k] == state.rows[offset + k]);
        }
    }
    out
}

/// Settles a browse whose listing came back as `outcome`, in epoch
/// `generation`, when the current epoch is `current`: a cancelled browse, or
/// one that a newer browse overtook, reports no rows and keeps the snapshot;
/// another failure is reported; else the rows become the snapshot.
pub fn settle_browse(
    state: &mut BrowseState,
    outcome: Result<Vec<BrowseRow>, SearchError>,
    generation: u64,
    current: u64,
) -> (r: Result<BrowseResult, String>)
    ensures
        match outcome {
            Ok(rows) => if current != generation {
                r == Ok::<BrowseResult, String>(BrowseResult { total: 0, generation }) && *final(state) == *old(state)
            } else {
                r == Ok::<BrowseResult, String>(BrowseResult { total: rows.len(), generation })
                    && final(state).generation == generation && final(state).rows@ == rows@
            },
            Err(SearchError::Cancelled) => r == Ok::<BrowseResult, String>(BrowseResult { total: 0, generation })
                && *final(state) == *old(state),
            Err(e) => r matches Err(m) && m@ == e.message_spec() && *final(state) == *old(state),
        },
{
    let rows = match outcome {
        Ok(rows) => rows,
        Err(SearchError::Cancelled) => {
            return Ok(BrowseResult { total: 0, generation });
        },
        Err(e) => {
            return Err(e.message());
        },
    };
    if current != generation {
        return Ok(BrowseResult { total: 0, generation });
    }
    let len = rows.len();
    state.generation = generation;
    state.rows = rows;
    Ok(BrowseResult { total: len, generation })
}

} // verus!
