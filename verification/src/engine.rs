//! Best-first ("A*") search over the virtual tree.
//!
//! Scores are fixed-point numbers: `SCORE_SCALE` stands for 1.0.

use crate::paths::spec_component_count;
use crate::tree::{in_tree, no_dups, no_nested_inputs, tree_ancestor, VirtualTree};
use vstd::prelude::*;

verus! {

/// The fixed-point unit of scores: a score of `SCORE_SCALE` stands for 1.0.
pub const SCORE_SCALE: i64 = 1_000_000;

/// Parameters of the search. `lambda`, `mu` and `suggest_threshold` are
/// fixed-point numbers in units of `1 / SCORE_SCALE`.
#[derive(Debug, Clone, Copy)]
pub struct AstarConfig {
    /// Depth penalty per path component.
    pub lambda: i32,
    /// Penalty per file scored so far.
    pub mu: i32,
    /// How many results the caller wants (the search returns every candidate).
    pub top_k: usize,
    /// Lowest score (exclusive) of a suggestion from outside the candidates.
    pub suggest_threshold: i64,
    /// Most suggestions kept.
    pub k_suggest: usize,
}

impl Default for AstarConfig {
    fn default() -> (c: Self)
        ensures
            c.lambda == 100_000,
            c.mu == 1_000,
            c.top_k == 20,
            c.suggest_threshold == 600_000,
            c.k_suggest == 10,
    {
        AstarConfig { lambda: 100_000, mu: 1_000, top_k: 20, suggest_threshold: 600_000, k_suggest: 10 }
    }
}

/// A scored file found by the search.
#[derive(Debug, Clone)]
pub struct SearchResult {
    pub path: String,
    /// The file's score, in units of `1 / SCORE_SCALE`.
    pub score: i64,
    /// Whether the file is one of the candidates (otherwise a suggestion).
    pub in_phase1: bool,
}

/// The kinds of progress that a search reports.
pub enum ExploreEventKind {
    /// A folder was opened and its children queued.
    OpenDir,
    /// A folder was passed over.
    SkipDir,
    /// A file was reached and scored.
    FoundFile,
}

/// An event as a callback hears it: its kind, the path, and the score (the
/// folder's heuristic for a folder).
pub type ExploreEvent = (ExploreEventKind, Seq<char>, i64);

/// Receives the search's progress as it happens.
pub trait ExploreCallback {
    /// Everything the callback has heard so far, in order. A callback that
    /// keeps no such record leaves it empty, and then cannot meet the
    /// contracts of the methods below: every callback checked here keeps one.
    open spec fn heard(&self) -> Seq<ExploreEvent> {
        Seq::empty()
    }

    fn on_open_dir(&mut self, path: &str, h_score: i64)
        ensures
            final(self).heard() == old(self).heard().push((ExploreEventKind::OpenDir, path@, h_score)),
    ;

    fn on_skip_dir(&mut self, path: &str, h_score: i64)
        ensures
            final(self).heard() == old(self).heard().push((ExploreEventKind::SkipDir, path@, h_score)),
    ;

    fn on_found_file(&mut self, path: &str, score: i64)
        ensures
            final(self).heard() == old(self).heard().push((ExploreEventKind::FoundFile, path@, score)),
    ;
}

/// The files found, in the order in which they were reported: path and score.
pub open spec fn found_files(evs: Seq<ExploreEvent>) -> Seq<(Seq<char>, i64)> {
    evs.filter(|e: ExploreEvent| e.0 is FoundFile).map_values(|e: ExploreEvent| (e.1, e.2))
}

/// The folders opened, in the order in which they were reported.
pub open spec fn opened_dirs(evs: Seq<ExploreEvent>) -> Seq<Seq<char>> {
    evs.filter(|e: ExploreEvent| e.0 is OpenDir).map_values(|e: ExploreEvent| e.1)
}

/// `r` lists the found files highest score first, files with equal scores in
/// the order in which they were found: `idx` sends each result to the found
/// file that it is.
pub open spec fn ranked_from(r: Seq<SearchResult>, found: Seq<(Seq<char>, i64)>, idx: Seq<int>) -> bool {
    &&& idx.len() == r.len() == found.len()
    &&& forall|k: int|
        0 <= k < r.len() ==> 0 <= #[trigger] idx[k] < found.len() && r[k].path@ == found[idx[k]].0 && r[k].score
            == found[idx[k]].1
    &&& forall|a: int, b: int|
        0 <= a < b < r.len() ==> #[trigger] idx[a] != #[trigger] idx[b] && (r[a].score == r[b].score ==> idx[a] < idx[b])
}

/// The found files of the results, in order.
pub open spec fn result_files(r: Seq<SearchResult>) -> Seq<(Seq<char>, i64)> {
    r.map_values(|x: SearchResult| (x.path@, x.score))
}

proof fn lemma_event_push(evs: Seq<ExploreEvent>, e: ExploreEvent)
    ensures
        found_files(evs.push(e)) == (if e.0 is FoundFile { found_files(evs).push((e.1, e.2)) } else { found_files(evs) }),
        opened_dirs(evs.push(e)) == (if e.0 is OpenDir { opened_dirs(evs).push(e.1) } else { opened_dirs(evs) }),
{
    evs.lemma_filter_push(e, |x: ExploreEvent| x.0 is FoundFile);
    evs.lemma_filter_push(e, |x: ExploreEvent| x.0 is OpenDir);
    assert(found_files(evs.push(e)) =~= (if e.0 is FoundFile { found_files(evs).push((e.1, e.2)) } else { found_files(evs) }));
    assert(opened_dirs(evs.push(e)) =~= (if e.0 is OpenDir { opened_dirs(evs).push(e.1) } else { opened_dirs(evs) }));
}

/// What a search over candidates `inputs` that returned `r` told a callback
/// that had heard `before` and has now heard `after`: it only added to what
/// was heard, opening folders and finding files; each result is a file that it
/// reported finding, with that score, and each file found is a result, the
/// results highest score first and, among equal scores, in the order found;
/// and it opened each folder at most once, never a candidate file.
pub open spec fn search_reported(
    before: Seq<ExploreEvent>,
    after: Seq<ExploreEvent>,
    r: Seq<SearchResult>,
    inputs: Seq<Seq<char>>,
) -> bool {
    let new = after.skip(before.len() as int);
    &&& before.is_prefix_of(after)
    &&& forall|k: int| 0 <= k < new.len() ==> (#[trigger] new[k]).0 is OpenDir || new[k].0 is FoundFile
    &&& exists|idx: Seq<int>| #[trigger] ranked_from(r, found_files(new), idx)
    &&& no_dups(opened_dirs(new))
    &&& forall|p: Seq<char>| #[trigger] opened_dirs(new).contains(p) ==> !inputs.contains(p)
}

/// A callback that does nothing with what it hears.
pub struct NoopCallback {
    heard: Ghost<Seq<ExploreEvent>>,
}

impl NoopCallback {
    /// A callback that has heard nothing yet.
    pub fn new() -> (c: Self)
        ensures
            c.heard() == Seq::<ExploreEvent>::empty(),
    {
        NoopCallback { heard: Ghost(Seq::empty()) }
    }
}

impl ExploreCallback for NoopCallback {
    closed spec fn heard(&self) -> Seq<ExploreEvent> {
        self.heard@
    }

    fn on_open_dir(&mut self, path: &str, h_score: i64) {
        self.heard = Ghost(self.heard@.push((ExploreEventKind::OpenDir, path@, h_score)));
    }

    fn on_skip_dir(&mut self, path: &str, h_score: i64) {
        self.heard = Ghost(self.heard@.push((ExploreEventKind::SkipDir, path@, h_score)));
    }

    fn on_found_file(&mut self, path: &str, score: i64) {
        self.heard = Ghost(self.heard@.push((ExploreEventKind::FoundFile, path@, score)));
    }
}

/// The paths of a list of results.
pub open spec fn result_paths(s: Seq<SearchResult>) -> Seq<Seq<char>> {
    s.map_values(|r: SearchResult| r.path@)
}

/// Scores never increase along the list.
pub open spec fn sorted_desc(s: Seq<SearchResult>) -> bool {
    forall|a: int, b: int| 0 <= a < b < s.len() ==> #[trigger] s[a].score >= #[trigger] s[b].score
}

/// `idx` sends each place of `out` to a distinct place of `orig` that holds
/// the same result, and results with equal scores keep the order they had in `orig`.
pub open spec fn score_stable(out: Seq<SearchResult>, orig: Seq<SearchResult>, idx: Seq<int>) -> bool {
    &&& idx.len() == out.len() == orig.len()
    &&& forall|k: int| 0 <= k < out.len() ==> 0 <= #[trigger] idx[k] < orig.len() && out[k] == orig[idx[k]]
    &&& forall|a: int, b: int|
        0 <= a < b < out.len() ==> #[trigger] idx[a] != #[trigger] idx[b] && (out[a].score == out[b].score
            ==> idx[a] < idx[b])
}

/// Inserting `orig[i]` at `pos`, just before the first lower score, keeps the
/// order of equal scores.
proof fn lemma_score_insert(o0: Seq<SearchResult>, orig: Seq<SearchResult>, idx: Seq<int>, i: int, pos: int)
    requires
        0 <= i < orig.len(),
        0 <= pos <= o0.len(),
        score_stable(o0, orig.take(i), idx),
        sorted_desc(o0),
        pos < o0.len() ==> o0[pos].score < orig[i].score,
    ensures
        score_stable(o0.insert(pos, orig[i]), orig.take(i + 1), idx.insert(pos, i)),
{
    let out = o0.insert(pos, orig[i]);
    let t = orig.take(i + 1);
    let nidx = idx.insert(pos, i);
    assert forall|k: int| 0 <= k < out.len() implies 0 <= #[trigger] nidx[k] < t.len() && out[k] == t[nidx[k]] by {
        if k < pos {
            assert(o0[k] == orig.take(i)[idx[k]]);
        } else if k > pos {
            assert(o0[k - 1] == orig.take(i)[idx[k - 1]]);
        }
    }
    assert forall|a: int, b: int| 0 <= a < b < out.len() implies #[trigger] nidx[a] != #[trigger] nidx[b] && (
    out[a].score == out[b].score ==> nidx[a] < nidx[b]) by {
        if b < pos {
            assert(nidx[a] == idx[a] && nidx[b] == idx[b]);
        } else if b == pos {
            assert(nidx[a] == idx[a] && idx[a] < i);
        } else if a < pos {
            assert(nidx[a] == idx[a] && nidx[b] == idx[b - 1]);
        } else if a == pos {
            assert(nidx[b] == idx[b - 1] && idx[b - 1] < i);
            assert(out[b] == o0[b - 1]);
            assert(o0[pos].score >= o0[b - 1].score);
        } else {
            assert(nidx[a] == idx[a - 1] && nidx[b] == idx[b - 1]);
            assert(out[a] == o0[a - 1] && out[b] == o0[b - 1]);
        }
    }
}

/// Sorts results by score, highest first, keeping the order of equal scores.
pub fn sort_by_score_desc(v: Vec<SearchResult>) -> (out: Vec<SearchResult>)
    ensures
        out.len() == v.len(),
        sorted_desc(out@),
        forall|e: SearchResult| out@.contains(e) <==> v@.contains(e),
        no_dups(result_paths(v@)) ==> no_dups(result_paths(out@)),
        exists|idx: Seq<int>| #[trigger] score_stable(out@, v@, idx),
{
    let ghost orig = v@;
    assert(orig.len() == v.len());
    let mut rest = v;
    let mut out: Vec<SearchResult> = Vec::new();
    let mut i: usize = 0;
    let ghost mut idx: Seq<int> = Seq::empty();
    while rest.len() > 0
        invariant
            i <= orig.len(),
            orig.len() <= usize::MAX,
            rest@ == orig.skip(i as int),
            out.len() == i,
            sorted_desc(out@),
            forall|e: SearchResult| out@.contains(e) <==> orig.take(i as int).contains(e),
            no_dups(result_paths(orig)) ==> no_dups(result_paths(out@)),
            score_stable(out@, orig.take(i as int), idx),
        decreases rest.len(),
    {
        let x = rest.remove(0);
        let mut pos: usize = 0;
        while pos < out.len() && out[pos].score >= x.score
            invariant
                pos <= out.len(),
                forall|a: int| 0 <= a < pos ==> out@[a].score >= x.score,
            decreases out.len() - pos,
        {
            pos = pos + 1;
        }
        let ghost o0 = out@;
        let ghost xv = orig[i as int];
        proof {
            assert(x == xv);
            assert(rest@ =~= orig.skip(i + 1));
        }
        out.insert(pos, x);
        proof {
            if (pos as int) < o0.len() {
                assert(o0[pos as int].score < xv.score);
            }
            lemma_score_insert(o0, orig, idx, i as int, pos as int);
            idx = idx.insert(pos as int, i as int);
            let t0 = orig.take(i as int);
            let t1 = orig.take(i + 1);
            assert(t1 =~= t0.push(xv));
            assert forall|a: int, b: int| 0 <= a < b < out@.len() implies #[trigger] out@[a].score >= #[trigger] out@[b].score by {
                if b < pos {
                } else if b == pos {
                } else if a < pos {
                    assert(out@[b] == o0[b - 1]);
                } else if a == pos {
                    assert(out@[b] == o0[b - 1]);
                    if (pos as int) < o0.len() {
                        assert(o0[pos as int].score < xv.score);
                    }
                } else {
                    assert(out@[a] == o0[a - 1] && out@[b] == o0[b - 1]);
                }
            }
            assert forall|e: SearchResult| out@.contains(e) <==> t1.contains(e) by {
                if out@.contains(e) {
                    let k = choose|k: int| 0 <= k < out@.len() && out@[k] == e;
                    if k < pos {
                        assert(o0[k] == e);
                        assert(o0.contains(e));
                    } else if k > pos {
                        assert(o0[k - 1] == e);
                        assert(o0.contains(e));
                    }
                    if e != xv {
                        let t = choose|t: int| 0 <= t < t0.len() && t0[t] == e;
                        assert(t1[t] == e);
                    } else {
                        assert(t1[i as int] == e);
                    }
                }
                if t1.contains(e) {
                    let t = choose|t: int| 0 <= t < t1.len() && t1[t] == e;
                    if t < i {
                        assert(t0[t] == e);
                        assert(o0.contains(e));
                        let k = choose|k: int| 0 <= k < o0.len() && o0[k] == e;
                        if k < pos {
                            assert(out@[k] == e);
                        } else {
                            assert(out@[k + 1] == e);
                        }
                    } else {
                        assert(out@[pos as int] == e);
                    }
                }
            }
            if no_dups(result_paths(orig)) {
                assert forall|a: int, b: int| 0 <= a < b < out@.len() implies result_paths(out@)[a] != result_paths(out@)[b] by {
                    let ra = out@[a];
                    let rb = out@[b];
                    if a != pos && b != pos {
                        let a0 = if a < pos { a } else { a - 1 };
                        let b0 = if b < pos { b } else { b - 1 };
                        assert(ra == o0[a0] && rb == o0[b0]);
                        assert(result_paths(o0)[a0] != result_paths(o0)[b0]);
                    } else {
                        let other = if a == pos { rb } else { ra };
                        let k0 = if a == pos { if b < pos { b } else { b - 1 } } else { if a < pos { a } else { a - 1 } };
                        assert(other == o0[k0]);
                        assert(o0.contains(other));
                        assert(t0.contains(other));
                        let t = choose|t: int| 0 <= t < t0.len() && t0[t] == other;
                        assert(result_paths(orig)[t] != result_paths(orig)[i as int]);
                    }
                }
            }
        }
        i = i + 1;
    }
    proof {
        assert(orig.take(orig.len() as int) =~= orig);
        assert(score_stable(out@, orig, idx));
    }
    out
}


/// A state of the best-first walk: the queued nodes, the paths visited, the
/// number of files scored, and what the callback has heard.
pub type WalkState = (Seq<SearchNode>, Set<Seq<char>>, nat, Seq<ExploreEvent>);

/// Node `m` has the greatest priority `f` of the queued nodes.
pub open spec fn best_at(q: Seq<SearchNode>, m: int) -> bool {
    &&& 0 <= m < q.len()
    &&& forall|k: int| 0 <= k < q.len() ==> #[trigger] q[k].f_score <= q[m].f_score
}

impl<H: Fn(&String) -> i64, S: Fn(&String) -> i64> AstarEngine<H, S> {
    /// `node` is the node that the walk queues for path `p` when `g` is its
    /// cost: a file takes the heuristic `h_file` of where it was reached
    /// from, a folder its own heuristic, and the priority is `h - g`.
    pub open spec fn walk_node(&self, tree: &VirtualTree, p: Seq<char>, node: SearchNode, h_file: i64, g: int) -> bool {
        &&& node.path@ == p
        &&& node.is_file == tree.inputs().contains(p)
        &&& node.in_phase1 == in_tree(tree.inputs(), p)
        &&& (node.is_file ==> node.h_score == h_file)
        &&& (!node.is_file ==> self.heuristic_fn().ensures((&node.path,), node.h_score))
        &&& node.g_cost == g
        &&& node.f_score == node.h_score - g
    }

    /// The walk starts with the roots queued in order, nothing visited,
    /// nothing scored, and the callback having heard `heard`.
    pub open spec fn walk_start(&self, tree: &VirtualTree, heard: Seq<ExploreEvent>, s: WalkState) -> bool {
        &&& s.0.len() == tree.root_paths().len()
        &&& forall|a: int| 0 <= a < s.0.len() ==> #[trigger] self.walk_node(tree, tree.root_paths()[a], s.0[a], 0, 0)
        &&& s.1 == Set::<Seq<char>>::empty()
        &&& s.2 == 0
        &&& s.3 == heard
    }

    /// The walk stops when the queue is empty, or when every candidate file
    /// is scored and no suggestions are wanted.
    pub open spec fn walk_stopped(&self, tree: &VirtualTree, s: WalkState) -> bool {
        s.0.len() == 0 || (s.2 == tree.inputs().to_set().len() && self.config_spec().k_suggest == 0)
    }

    /// One step of the walk from `s` to `t`, taking node `m` off the queue: a
    /// node visited before is dropped; a file is scored and reported; a
    /// folder whose expansion is not empty is reported as opened, and each
    /// path of its expansion not visited yet is queued, in order, with the
    /// cost `depth * lambda + scored * mu` of the folder.
    pub open spec fn walk_step(&self, tree: &VirtualTree, s: WalkState, m: int, t: WalkState) -> bool {
        let node = s.0[m];
        let p = node.path@;
        let rest = s.0.remove(m);
        if s.1.contains(p) {
            t == (rest, s.1, s.2, s.3)
        } else if node.is_file {
            &&& t.0 == rest
            &&& t.1 == s.1.insert(p)
            &&& t.2 == s.2 + 1
            &&& t.3 == s.3.push((ExploreEventKind::FoundFile, p, t.3.last().2))
            &&& self.scorer_fn().ensures((&node.path,), t.3.last().2)
        } else {
            let kids = tree.spec_expand(p);
            let vis = s.1.insert(p);
            let fresh = kids.filter(|c: Seq<char>| !vis.contains(c));
            let g = spec_component_count(p) * self.config_spec().lambda + s.2 * self.config_spec().mu;
            if kids.len() == 0 {
                t == (rest, vis, s.2, s.3)
            } else {
                &&& t.1 == vis
                &&& t.2 == s.2
                &&& t.3 == s.3.push((ExploreEventKind::OpenDir, p, node.h_score))
                &&& t.0.len() == rest.len() + fresh.len()
                &&& t.0.take(rest.len() as int) == rest
                &&& forall|j: int| 0 <= j < fresh.len() ==> #[trigger] self.walk_node(tree, fresh[j], t.0[rest.len() + j], node.h_score, g)
            }
        }
    }

    /// `states` is a best-first walk over `tree` whose callback had heard
    /// `heard` before it: each step takes a queued node of the greatest
    /// priority (`picks` says which), and the walk goes on until it stops.
    pub open spec fn best_first_walk(&self, tree: &VirtualTree, heard: Seq<ExploreEvent>, states: Seq<WalkState>, picks: Seq<int>) -> bool {
        &&& self.walk_prefix(tree, heard, states, picks)
        &&& self.walk_stopped(tree, states.last())
    }

    /// `states` is the start of a best-first walk: each step takes a queued
    /// node of the greatest priority from a state where the walk had not stopped.
    pub open spec fn walk_prefix(&self, tree: &VirtualTree, heard: Seq<ExploreEvent>, states: Seq<WalkState>, picks: Seq<int>) -> bool {
        &&& states.len() == picks.len() + 1
        &&& self.walk_start(tree, heard, states[0])
        &&& forall|k: int| 0 <= k < picks.len() ==> #[trigger] self.walk_move(tree, states, picks, k)
    }

    /// Step `k` of the walk: from a state where it had not stopped, it takes
    /// a queued node of the greatest priority.
    pub open spec fn walk_move(&self, tree: &VirtualTree, states: Seq<WalkState>, picks: Seq<int>, k: int) -> bool {
        &&& !self.walk_stopped(tree, states[k])
        &&& best_at(states[k].0, picks[k])
        &&& self.walk_step(tree, states[k], picks[k], states[k + 1])
    }

    proof fn lemma_walk_extend(&self, tree: &VirtualTree, heard: Seq<ExploreEvent>, states: Seq<WalkState>, picks: Seq<int>, m: int, t: WalkState)
        requires
            self.walk_prefix(tree, heard, states, picks),
            !self.walk_stopped(tree, states.last()),
            best_at(states.last().0, m),
            self.walk_step(tree, states.last(), m, t),
        ensures
            self.walk_prefix(tree, heard, states.push(t), picks.push(m)),
    {
        let s2 = states.push(t);
        let p2 = picks.push(m);
        assert(s2[0] == states[0]);
        assert(s2.len() == p2.len() + 1);
        assert(self.walk_start(tree, heard, s2[0]));
        assert forall|k: int| 0 <= k < p2.len() implies #[trigger] self.walk_move(tree, s2, p2, k) by {
            if k < picks.len() {
                assert(s2[k] == states[k] && s2[k + 1] == states[k + 1] && p2[k] == picks[k]);
                assert(self.walk_move(tree, states, picks, k));
            } else {
                assert(s2[k] == states.last() && s2[k + 1] == t && p2[k] == m);
            }
        }
    }
}

/// The paths of the visited nodes.
spec fn visited_paths(tree: &VirtualTree, v: Seq<bool>) -> Set<Seq<char>> {
    Set::new(|p: Seq<char>| exists|i: int| 0 <= i < v.len() && v[i] && tree.arena.paths[i]@ == p)
}

/// The paths of nodes `ids` that are not in `vis`, in order.
spec fn fresh_paths(tree: &VirtualTree, ids: Seq<usize>, vis: Set<Seq<char>>) -> Seq<Seq<char>> {
    tree.id_paths(ids).filter(|x: Seq<char>| !vis.contains(x))
}

/// The nodes of the queue, without their indices.
spec fn queue_nodes(q: Seq<(usize, SearchNode)>) -> Seq<SearchNode> {
    q.map_values(|e: (usize, SearchNode)| e.1)
}

proof fn lemma_visited_paths(tree: &VirtualTree, v: Seq<bool>, i: int)
    requires
        tree.arena.base_ok(),
        v.len() == tree.arena.paths.len(),
        0 <= i < v.len(),
    ensures
        visited_paths(tree, v).contains(tree.arena.paths[i]@) <==> v[i],
{
    if visited_paths(tree, v).contains(tree.arena.paths[i]@) {
        let j = choose|j: int| 0 <= j < v.len() && v[j] && tree.arena.paths[j]@ == tree.arena.paths[i]@;
        assert(tree.arena.index@[tree.arena.paths[j]@] == j);
        assert(tree.arena.index@[tree.arena.paths[i]@] == i);
    }
}

proof fn lemma_visit(tree: &VirtualTree, v: Seq<bool>, u: int)
    requires
        tree.arena.base_ok(),
        v.len() == tree.arena.paths.len(),
        0 <= u < v.len(),
    ensures
        visited_paths(tree, v.update(u, true)) == visited_paths(tree, v).insert(tree.arena.paths[u]@),
{
    let v2 = v.update(u, true);
    assert forall|p: Seq<char>| visited_paths(tree, v2).contains(p) <==> visited_paths(tree, v).insert(tree.arena.paths[u]@).contains(p) by {
        if visited_paths(tree, v2).contains(p) {
            let j = choose|j: int| 0 <= j < v2.len() && v2[j] && tree.arena.paths[j]@ == p;
            if j != u {
                assert(v[j]);
            }
        }
        if visited_paths(tree, v).contains(p) {
            let j = choose|j: int| 0 <= j < v.len() && v[j] && tree.arena.paths[j]@ == p;
            assert(v2[j]);
        }
        if p == tree.arena.paths[u]@ {
            assert(v2[u]);
        }
    }
    assert(visited_paths(tree, v2) =~= visited_paths(tree, v).insert(tree.arena.paths[u]@));
}

/// A node waiting in the search queue.
#[derive(Debug, Clone)]
pub struct SearchNode {
    pub path: String,
    /// The priority: `h_score - g_cost`; the highest is expanded first.
    pub f_score: i128,
    pub g_cost: i128,
    pub h_score: i64,
    pub is_file: bool,
    /// Whether the node belongs to the tree built from the candidates.
    pub in_phase1: bool,
}

/// The best-first search engine.
///
/// `heuristic` rates a folder (how promising it looks) and `scorer` rates a
/// file; both give fixed-point numbers in units of `1 / SCORE_SCALE`.
pub struct AstarEngine<H, S> {
    config: AstarConfig,
    heuristic: H,
    scorer: S,
}

/// The number of `true` entries.
pub open spec fn count_true(v: Seq<bool>) -> nat
    decreases v.len(),
{
    if v.len() == 0 {
        0
    } else {
        count_true(v.drop_last()) + if v.last() {
            1nat
        } else {
            0nat
        }
    }
}

proof fn lemma_count_true_le(v: Seq<bool>)
    ensures
        count_true(v) <= v.len(),
    decreases v.len(),
{
    if v.len() > 0 {
        lemma_count_true_le(v.drop_last());
    }
}

proof fn lemma_count_true_set(v: Seq<bool>, i: int)
    requires
        0 <= i < v.len(),
        !v[i],
    ensures
        count_true(v.update(i, true)) == count_true(v) + 1,
    decreases v.len(),
{
    let w = v.update(i, true);
    if i == v.len() - 1 {
        assert(w.drop_last() =~= v.drop_last());
    } else {
        assert(w.drop_last() =~= v.drop_last().update(i, true));
        lemma_count_true_set(v.drop_last(), i);
    }
}

/// The cost of a node: depth penalty plus the penalty for the files scored so far.
fn g_cost(depth: usize, lambda: i32, count: usize, mu: i32) -> (g: i128)
    ensures
        g == depth * lambda + count * mu,
        -0x2_0000_0000_0000_0000_0000_0000 < g < 0x2_0000_0000_0000_0000_0000_0000,
{
    proof {
        let d = depth as int;
        let l = lambda as int;
        let c = count as int;
        let m = mu as int;
        assert(-0x1_0000_0000_0000_0000_0000_0000 < d * l < 0x1_0000_0000_0000_0000_0000_0000) by (nonlinear_arith)
            requires
                0 <= d < 0x1_0000_0000_0000_0000,
                -0x8000_0000 <= l < 0x8000_0000,
        ;
        assert(-0x1_0000_0000_0000_0000_0000_0000 < c * m < 0x1_0000_0000_0000_0000_0000_0000) by (nonlinear_arith)
            requires
                0 <= c < 0x1_0000_0000_0000_0000,
                -0x8000_0000 <= m < 0x8000_0000,
        ;
    }
    (depth as i128) * (lambda as i128) + (count as i128) * (mu as i128)
}

/// The position of the first entry with the highest priority.
fn best_index(q: &Vec<(usize, SearchNode)>) -> (m: usize)
    requires
        q.len() > 0,
    ensures
        m < q.len(),
        forall|k: int| 0 <= k < q.len() ==> q[k].1.f_score <= q[m as int].1.f_score,
{
    let mut m: usize = 0;
    let mut k: usize = 1;
    while k < q.len()
        invariant
            m < q.len(),
            1 <= k <= q.len(),
            forall|j: int| 0 <= j < k ==> q[j].1.f_score <= q[m as int].1.f_score,
        decreases q.len() - k,
    {
        if q[k].1.f_score > q[m].1.f_score {
            m = k;
        }
        k = k + 1;
    }
    m
}


/// Every queue entry names an arena node and carries its path and flags.
spec fn queue_ok(tree: &VirtualTree, q: Seq<(usize, SearchNode)>) -> bool {
    forall|k: int| 0 <= k < q.len() ==> {
        &&& ((#[trigger] q[k]).0 as int) < tree.arena.paths.len()
        &&& q[k].1.path@ == tree.arena.paths[q[k].0 as int]@
        &&& q[k].1.is_file == tree.file[q[k].0 as int]
        &&& q[k].1.in_phase1 == tree.tree_node[q[k].0 as int]
    }
}

/// Node `x` waits in the queue.
spec fn queued(q: Seq<(usize, SearchNode)>, x: int) -> bool {
    exists|k: int| 0 <= k < q.len() && (#[trigger] q[k]).0 == x
}

/// Tree node `x` is visited, waits in the queue, or will be pushed when its
/// tree parent is expanded (unless that parent is a file).
spec fn settled(tree: &VirtualTree, visited: Seq<bool>, q: Seq<(usize, SearchNode)>, x: int) -> bool {
    ||| visited[x]
    ||| queued(q, x)
    ||| match tree.arena.tparent(x) {
        Some(p) => !visited[p as int] || tree.file[p as int],
        None => false,
    }
}

spec fn reach_ok(tree: &VirtualTree, visited: Seq<bool>, q: Seq<(usize, SearchNode)>) -> bool {
    forall|x: int| 0 <= x < tree.arena.paths.len() && tree.tree_node[x] ==> #[trigger] settled(tree, visited, q, x)
}

/// The results found so far: visited candidate files, each with its score,
/// and every visited file among them.
spec fn results_ok<S: Fn(&String) -> i64>(
    tree: &VirtualTree,
    res: Seq<SearchResult>,
    ids: Seq<usize>,
    visited: Seq<bool>,
    scorer: S,
) -> bool {
    &&& res.len() == ids.len()
    &&& forall|k: int| 0 <= k < ids.len() ==> {
        &&& ((#[trigger] ids[k]) as int) < tree.arena.paths.len()
        &&& visited[ids[k] as int]
        &&& tree.file[ids[k] as int]
        &&& res[k].path@ == tree.arena.paths[ids[k] as int]@
        &&& res[k].in_phase1
        &&& scorer.ensures((&res[k].path,), res[k].score)
    }
    &&& no_dups(result_paths(res))
    &&& forall|x: int| 0 <= x < tree.arena.paths.len() && visited[x] && #[trigger] tree.file[x] ==> ids.contains(x as usize)
}

/// Visiting node `u` (taken from position `m` of the queue) keeps every tree
/// node settled, provided that its tree children are visited or queued unless
/// it is a file.
proof fn lemma_settle_step(
    tree: &VirtualTree,
    v0: Seq<bool>,
    v: Seq<bool>,
    qb: Seq<(usize, SearchNode)>,
    m: int,
    q2: Seq<(usize, SearchNode)>,
    q: Seq<(usize, SearchNode)>,
    u: int,
)
    requires
        tree.core_ok(),
        0 <= u < tree.arena.paths.len(),
        v0.len() == tree.arena.paths.len(),
        v == v0.update(u, true),
        0 <= m < qb.len(),
        qb[m].0 == u,
        reach_ok(tree, v0, qb),
        q2.len() == qb.len() - 1,
        forall|k: int| 0 <= k < q2.len() ==> #[trigger] q2[k] == qb[if k < m { k } else { k + 1 }],
        q2.len() <= q.len(),
        forall|k: int| 0 <= k < q2.len() ==> #[trigger] q[k] == q2[k],
        tree.file[u] || forall|x: int| 0 <= x < tree.arena.paths.len() && tree.tree_node[x]
            && tree.arena.tparent(x) == Some(u as usize) ==> v[x] || #[trigger] queued(q, x),
    ensures
        reach_ok(tree, v, q),
{
    assert forall|x: int| 0 <= x < tree.arena.paths.len() && tree.tree_node[x] implies #[trigger] settled(tree, v, q, x) by {
        assert(settled(tree, v0, qb, x));
        if x != u && !v0[x] && queued(qb, x) {
            let k = choose|k: int| 0 <= k < qb.len() && (#[trigger] qb[k]).0 == x;
            let k2 = if k < m { k } else { k - 1 };
            assert(q2[k2] == qb[k]);
            assert(q[k2] == q2[k2]);
        }
        if tree.arena.tparent(x) is Some {
            tree.lemma_tree_parent_node(x);
        }
        if tree.arena.tparent(x) == Some(u as usize) && !tree.file[u] {
            assert(v[x] || queued(q, x));
        }
    }
}

/// Distinct candidates: as many as there are distinct candidates at most, and
/// all of them when there are as many.
proof fn lemma_distinct_candidates(s: Seq<Seq<char>>, inputs: Seq<Seq<char>>)
    requires
        no_dups(s),
        forall|k: int| 0 <= k < s.len() ==> inputs.contains(#[trigger] s[k]),
    ensures
        s.len() <= inputs.to_set().len(),
        s.len() == inputs.to_set().len() ==> forall|x: Seq<char>| inputs.contains(x) ==> s.contains(x),
        (forall|x: Seq<char>| inputs.contains(x) ==> s.contains(x)) ==> s.len() == inputs.to_set().len(),
{
    assert(s.no_duplicates()) by {
        assert forall|i: int, j: int| 0 <= i < s.len() && 0 <= j < s.len() && i != j implies s[i] != s[j] by {
            if i < j {
            } else {
            }
        }
    }
    s.unique_seq_to_set();
    assert(s.to_set().subset_of(inputs.to_set())) by {
        assert forall|x: Seq<char>| s.to_set().contains(x) implies inputs.to_set().contains(x) by {
            let k = choose|k: int| 0 <= k < s.len() && s[k] == x;
            assert(inputs.contains(s[k]));
        }
    }
    vstd::set_lib::lemma_len_subset(s.to_set(), inputs.to_set());
    if s.len() == inputs.to_set().len() {
        vstd::set_lib::lemma_subset_equality(s.to_set(), inputs.to_set());
        assert forall|x: Seq<char>| inputs.contains(x) implies s.contains(x) by {
            assert(inputs.to_set().contains(x));
            assert(s.to_set().contains(x));
        }
    }
    if forall|x: Seq<char>| inputs.contains(x) ==> s.contains(x) {
        assert(inputs.to_set().subset_of(s.to_set()));
        vstd::set_lib::lemma_len_subset(inputs.to_set(), s.to_set());
    }
}

/// When nothing waits in the queue and no candidate lies below another,
/// every tree node was visited.
proof fn lemma_all_visited(tree: &VirtualTree, visited: Seq<bool>, x: int)
    requires
        tree.core_ok(),
        visited.len() == tree.arena.paths.len(),
        no_nested_inputs(tree.inputs()),
        reach_ok(tree, visited, Seq::<(usize, SearchNode)>::empty()),
        0 <= x < tree.arena.paths.len(),
        tree.tree_node[x],
    ensures
        visited[x],
    decreases tree.arena.paths[x]@.len(),
{
    assert(settled(tree, visited, Seq::<(usize, SearchNode)>::empty(), x));
    if !visited[x] {
        if let Some(p) = tree.arena.tparent(x) {
            tree.lemma_tree_parent_node(x);
            lemma_all_visited(tree, visited, p as int);
        }
    }
}


impl<H: Fn(&String) -> i64, S: Fn(&String) -> i64> AstarEngine<H, S> {
    /// The engine's parameters.
    pub closed spec fn config_spec(&self) -> AstarConfig {
        self.config
    }

    /// The engine's folder heuristic.
    pub closed spec fn heuristic_fn(&self) -> H {
        self.heuristic
    }

    /// The engine's file scorer.
    pub closed spec fn scorer_fn(&self) -> S {
        self.scorer
    }

    pub fn new(config: AstarConfig, heuristic: H, scorer: S) -> (e: Self)
        ensures
            e.config_spec() == config,
            e.heuristic_fn() == heuristic,
            e.scorer_fn() == scorer,
    {
        AstarEngine { config, heuristic, scorer }
    }

    /// Runs the search over `tree`.
    ///
    /// The nodes with the highest `h - g` are expanded first, where `h` is the
    /// heuristic of a folder (a file inherits the heuristic of the folder it was
    /// reached from) and `g` is the depth penalty of the folder expanded plus
    /// `mu` for every file scored so far. Every candidate file reached is
    /// scored and returned; the results come highest score first. `callback`
    /// hears of every folder opened and every file scored.
    pub fn search<C: ExploreCallback>(&self, tree: &VirtualTree, callback: &mut C) -> (r: Vec<SearchResult>)
        requires
            tree.wf(),
            forall|p: &String| #[trigger] self.heuristic_fn().requires((p,)),
            forall|p: &String| #[trigger] self.scorer_fn().requires((p,)),
        ensures
            sorted_desc(r@),
            no_dups(result_paths(r@)),
            forall|k: int| 0 <= k < r.len() ==> {
                &&& (#[trigger] r[k]).in_phase1
                &&& tree.inputs().contains(r[k].path@)
                &&& self.scorer_fn().ensures((&r[k].path,), r[k].score)
            },
            no_nested_inputs(tree.inputs()) ==> r.len() == tree.inputs().to_set().len(),
            no_nested_inputs(tree.inputs()) ==> forall|x: Seq<char>| #[trigger] tree.inputs().contains(x)
                ==> result_paths(r@).contains(x),
            search_reported(old(callback).heard(), final(callback).heard(), r@, tree.inputs()),
            exists|w: (Seq<WalkState>, Seq<int>)|
                #[trigger] self.best_first_walk(tree, old(callback).heard(), w.0, w.1) && final(callback).heard() == w.0.last().3,
    {
        proof {
            tree.lemma_wf();
        }
        let ghost h0 = callback.heard();
        let ghost mut evs: Seq<ExploreEvent> = Seq::empty();
        let ghost mut opened: Seq<usize> = Seq::empty();
        let cfg = &self.config;
        let n = tree.arena.paths.len();
        let mut queue: Vec<(usize, SearchNode)> = Vec::new();
        let mut phase1_results: Vec<SearchResult> = Vec::new();
        let mut suggestions: Vec<SearchResult> = Vec::new();
        let mut visited: Vec<bool> = Vec::new();
        let ghost mut ids: Seq<usize> = Seq::empty();
        while visited.len() < n
            invariant
                visited.len() <= n,
                forall|i: int| 0 <= i < visited.len() ==> !visited[i],
                count_true(visited@) == 0,
            decreases n - visited.len(),
        {
            let ghost v0 = visited@;
            visited.push(false);
            proof {
                assert(visited@.drop_last() =~= v0);
            }
        }
        let mut vectorized_count: usize = 0;
        let mut phase1_pending = tree.phase1_file_count();

        let mut a: usize = 0;
        while a < tree.root_ids.len()
            invariant
                tree.core_ok(),
                visited.len() == n,
                forall|i: int| 0 <= i < visited.len() ==> !visited[i],
                count_true(visited@) == 0,
                tree.roots_ok(),
                n == tree.arena.paths.len(),
                forall|p: &String| #[trigger] self.heuristic_fn().requires((p,)),
                a <= tree.root_ids.len(),
                queue_ok(tree, queue@),
                forall|b: int| 0 <= b < a ==> queued(queue@, #[trigger] tree.root_ids[b] as int),
                tree.inputs() == tree.inputs@,
                queue.len() == a,
                forall|b: int| 0 <= b < a ==> #[trigger] self.walk_node(tree, tree.roots[b]@, queue@[b].1, 0, 0),
            decreases tree.root_ids.len() - a,
        {
            let id = tree.root_ids[a];
            let is_file = tree.file[id];
            let h: i64 = if is_file {
                0
            } else {
                proof {
                    assert(self.heuristic_fn().requires((&tree.roots[a as int],)));
                }
                (self.heuristic)(&tree.roots[a])
            };
            let g: i128 = 0;
            let ghost q0 = queue@;
            queue.push((id, SearchNode {
                path: tree.roots[a].clone(),
                f_score: h as i128 - g,
                g_cost: g,
                h_score: h,
                is_file,
                in_phase1: tree.tree_node[id],
            }));
            proof {
                assert forall|b: int| 0 <= b < a + 1 implies queued(queue@, #[trigger] tree.root_ids[b] as int) by {
                    if b < a {
                        let k = choose|k: int| 0 <= k < q0.len() && (#[trigger] q0[k]).0 == tree.root_ids[b] as int;
                        assert(queue@[k] == q0[k]);
                    } else {
                        assert(queue@[q0.len() as int].0 == id);
                    }
                }
                assert(tree.roots[a as int]@ == tree.arena.paths[id as int]@);
                assert forall|b: int| 0 <= b < a + 1 implies #[trigger] self.walk_node(tree, tree.roots[b]@, queue@[b].1, 0, 0) by {
                    if b < a {
                        assert(queue@[b] == q0[b]);
                    }
                }
            }
            a = a + 1;
        }
        proof {
            assert forall|x: int| 0 <= x < n && tree.tree_node[x] implies #[trigger] settled(tree, visited@, queue@, x) by {
                if tree.arena.tparent(x) is Some {
                    tree.lemma_tree_parent_node(x);
                } else {
                    assert(tree.root_ids@.contains(x as usize));
                    let b = choose|b: int| 0 <= b < tree.root_ids.len() && tree.root_ids[b] == x as usize;
                    assert(queued(queue@, tree.root_ids[b] as int));
                }
            }
            lemma_count_true_le(visited@);
        }
        let ghost s0: WalkState = (queue_nodes(queue@), visited_paths(tree, visited@), 0nat, callback.heard());
        proof {
            tree.lemma_root_paths();
            assert(visited_paths(tree, visited@) =~= Set::<Seq<char>>::empty());
            assert forall|b: int| 0 <= b < s0.0.len() implies #[trigger] self.walk_node(tree, tree.root_paths()[b], s0.0[b], 0, 0) by {
                assert(tree.root_paths()[b] == tree.roots[b]@);
                assert(self.walk_node(tree, tree.roots[b]@, queue@[b].1, 0, 0));
            }
            assert(self.walk_start(tree, h0, s0));
        }
        let ghost mut states: Seq<WalkState> = seq![s0];
        let ghost mut picks: Seq<int> = Seq::empty();

        while queue.len() > 0 && !(phase1_pending == 0 && suggestions.len() >= cfg.k_suggest)
            invariant
                tree.wf(),
                tree.core_ok(),
                tree.inputs() == tree.inputs@,
                n == tree.arena.paths.len(),
                cfg == &self.config,
                forall|p: &String| #[trigger] self.heuristic_fn().requires((p,)),
                forall|p: &String| #[trigger] self.scorer_fn().requires((p,)),
                visited.len() == n,
                queue_ok(tree, queue@),
                reach_ok(tree, visited@, queue@),
                results_ok(tree, phase1_results@, ids, visited@, self.scorer),
                forall|k: int| 0 <= k < phase1_results.len() ==> tree.inputs().contains(#[trigger] phase1_results[k].path@),
                suggestions.len() == 0,
                vectorized_count == phase1_results.len(),
                vectorized_count <= count_true(visited@),
                count_true(visited@) <= n,
                phase1_results.len() <= tree.inputs().to_set().len(),
                phase1_pending + phase1_results.len() == tree.inputs().to_set().len(),
                callback.heard() == h0 + evs,
                forall|k: int| 0 <= k < evs.len() ==> (#[trigger] evs[k]).0 is OpenDir || evs[k].0 is FoundFile,
                found_files(evs) == result_files(phase1_results@),
                opened_dirs(evs) == opened.map_values(|i: usize| tree.arena.paths[i as int]@),
                forall|k: int| 0 <= k < opened.len() ==> (#[trigger] opened[k] as int) < n && visited[opened[k] as int]
                    && !tree.file[opened[k] as int],
                no_dups(opened),
                self.walk_prefix(tree, h0, states, picks),
                states.last() == (queue_nodes(queue@), visited_paths(tree, visited@), vectorized_count as nat, callback.heard()),
                cfg.k_suggest == self.config_spec().k_suggest,
            decreases n - count_true(visited@), queue.len(),
        {
            let m = best_index(&queue);
            let ghost q_before = queue@;
            let ghost st = states.last();
            proof {
                assert(!self.walk_stopped(tree, st));
                assert(best_at(st.0, m as int)) by {
                    assert forall|k: int| 0 <= k < st.0.len() implies #[trigger] st.0[k].f_score <= st.0[m as int].f_score by {
                        assert(st.0[k] == q_before[k].1);
                    }
                }
            }
            let (u, node) = queue.remove(m);
            let ghost q2 = queue@;
            let ghost np = node;
            proof {
                assert(queue_nodes(q2) =~= st.0.remove(m as int));
                assert(st.0[m as int] == np);
                lemma_visited_paths(tree, visited@, u as int);
                assert(q_before[m as int] == (u, node));
                assert forall|k: int| 0 <= k < q2.len() implies #[trigger] q2[k] == q_before[if k < m { k } else { k + 1 }] by {
                }
            }
            if visited[u] {
                proof {
                    assert forall|x: int| 0 <= x < n && tree.tree_node[x] implies #[trigger] settled(tree, visited@, queue@, x) by {
                        assert(settled(tree, visited@, q_before, x));
                        if x != u as int && queued(q_before, x) {
                            let k = choose|k: int| 0 <= k < q_before.len() && (#[trigger] q_before[k]).0 == x;
                            if k < m {
                                assert(queue@[k] == q_before[k]);
                            } else {
                                assert(queue@[k - 1] == q_before[k]);
                            }
                        }
                    }
                    let t: WalkState = (queue_nodes(queue@), st.1, st.2, st.3);
                    assert(self.walk_step(tree, st, m as int, t));
                    self.lemma_walk_extend(tree, h0, states, picks, m as int, t);
                    states = states.push(t);
                    picks = picks.push(m as int);
                }
                continue;
            }
            let ghost v0 = visited@;
            let ghost e0 = evs;
            let ghost op0 = opened;
            let ghost hb = callback.heard();
            visited.set(u, true);
            proof {
                lemma_count_true_set(v0, u as int);
                lemma_count_true_le(visited@);
            }
            if node.is_file {
                proof {
                    assert(self.scorer_fn().requires((&node.path,)));
                }
                let score = (self.scorer)(&node.path);
                vectorized_count = vectorized_count + 1;
                callback.on_found_file(node.path.as_str(), score);
                proof {
                    tree.lemma_file_is_tree_node(u as int);
                    assert(node.in_phase1);
                    let e = (ExploreEventKind::FoundFile, node.path@, score);
                    lemma_event_push(evs, e);
                    evs = evs.push(e);
                    assert(callback.heard() == h0 + evs) by {
                        assert(hb.push(e) =~= h0 + evs);
                    }
                }
                if node.in_phase1 {
                    let ghost r0 = phase1_results@;
                    let ghost ids0 = ids;
                    let ghost fpath = node.path@;
                    phase1_results.push(SearchResult { path: node.path, score, in_phase1: true });
                    proof {
                        assert(result_files(phase1_results@) =~= result_files(r0).push((fpath, score)));
                        ids = ids.push(u);
                        assert(result_paths(phase1_results@) =~= result_paths(r0).push(tree.arena.paths[u as int]@));
                        assert forall|k: int| 0 <= k < ids0.len() implies tree.arena.paths[(#[trigger] ids0[k]) as int]@ != tree.arena.paths[u as int]@ by {
                            assert(tree.arena.index@[tree.arena.paths[ids0[k] as int]@] == ids0[k]);
                        }
                        assert forall|a1: int, b1: int| 0 <= a1 < b1 < phase1_results.len()
                            implies result_paths(phase1_results@)[a1] != result_paths(phase1_results@)[b1] by {
                            if b1 < r0.len() {
                                assert(result_paths(r0)[a1] != result_paths(r0)[b1]);
                            } else {
                                assert(result_paths(r0)[a1] == tree.arena.paths[ids0[a1] as int]@);
                            }
                        }
                        assert forall|x: int| 0 <= x < n && visited[x] && #[trigger] tree.file[x] implies ids.contains(x as usize) by {
                            if x == u as int {
                                assert(ids[ids0.len() as int] == u);
                            } else {
                                assert(v0[x]);
                                let k = choose|k: int| 0 <= k < ids0.len() && ids0[k] == x as usize;
                                assert(ids[k] == ids0[k]);
                            }
                        }
                        assert forall|k: int| 0 <= k < phase1_results.len() implies tree.inputs().contains(#[trigger] phase1_results[k].path@) by {
                            if k < r0.len() {
                                assert(phase1_results[k] == r0[k]);
                            } else {
                                assert(tree.inputs@.contains(tree.arena.paths[u as int]@));
                            }
                        }
                        assert forall|k: int| 0 <= k < result_paths(phase1_results@).len() implies tree.inputs().contains(#[trigger] result_paths(phase1_results@)[k]) by {
                            assert(tree.inputs().contains(phase1_results[k].path@));
                        }
                        lemma_distinct_candidates(result_paths(phase1_results@), tree.inputs());
                    }
                    phase1_pending = phase1_pending.saturating_sub(1);
                } else if score > cfg.suggest_threshold {
                    suggestions.push(SearchResult { path: node.path, score, in_phase1: false });
                }
                proof {
                    lemma_visit(tree, v0, u as int);
                    let t: WalkState = (queue_nodes(queue@), visited_paths(tree, visited@), vectorized_count as nat, callback.heard());
                    assert(t.3.last().2 == score);
                    assert(self.walk_step(tree, st, m as int, t));
                    self.lemma_walk_extend(tree, h0, states, picks, m as int, t);
                    states = states.push(t);
                    picks = picks.push(m as int);
                }
            } else {
                let children = tree.expand_ids(u);
                let ghost vis = visited_paths(tree, visited@);
                let ghost gsp = spec_component_count(np.path@) * self.config_spec().lambda + vectorized_count * self.config_spec().mu;
                proof {
                    lemma_visit(tree, v0, u as int);
                    assert(tree.arena.depth[u as int] == spec_component_count(np.path@));
                    assert(children@.take(0) =~= Seq::<usize>::empty());
                    assert(fresh_paths(tree, children@.take(0), vis) =~= Seq::<Seq<char>>::empty()) by {
                        assert(tree.id_paths(children@.take(0)) =~= Seq::<Seq<char>>::empty());
                    }
                }
                if children.len() > 0 {
                    callback.on_open_dir(node.path.as_str(), node.h_score);
                    proof {
                        let e = (ExploreEventKind::OpenDir, node.path@, node.h_score);
                        lemma_event_push(evs, e);
                        evs = evs.push(e);
                        assert(callback.heard() == h0 + evs) by {
                            assert(hb.push(e) =~= h0 + evs);
                        }
                        opened = opened.push(u);
                        assert(opened.map_values(|i: usize| tree.arena.paths[i as int]@) =~= op0.map_values(
                            |i: usize| tree.arena.paths[i as int]@,
                        ).push(node.path@));
                        assert forall|a: int, b: int| 0 <= a < b < opened.len() implies opened[a] != opened[b] by {
                            if b == op0.len() {
                                assert(v0[op0[a] as int]);
                            }
                        }
                    }
                    let depth = tree.arena.depth[u];
                    let mut c: usize = 0;
                    while c < children.len()
                        invariant
                            tree.core_ok(),
                            n == tree.arena.paths.len(),
                            cfg == &self.config,
                            forall|p: &String| #[trigger] self.heuristic_fn().requires((p,)),
                            visited.len() == n,
                            c <= children.len(),
                            forall|b: int| 0 <= b < children.len() ==> (#[trigger] children[b] as int) < n,
                            queue_ok(tree, queue@),
                            q2.len() <= queue.len(),
                            forall|k: int| 0 <= k < q2.len() ==> #[trigger] queue@[k] == q2[k],
                            forall|b: int| 0 <= b < c ==> visited[#[trigger] children[b] as int] || queued(queue@, children[b] as int),
                            tree.inputs() == tree.inputs@,
                            vis == visited_paths(tree, visited@),
                            depth == tree.arena.depth[u as int],
                            (u as int) < n,
                            np.path@ == tree.arena.paths[u as int]@,
                            np.h_score == node.h_score,
                            gsp == spec_component_count(np.path@) * cfg.lambda + vectorized_count * cfg.mu,
                            queue.len() == q2.len() + fresh_paths(tree, children@.take(c as int), vis).len(),
                            forall|j: int| 0 <= j < fresh_paths(tree, children@.take(c as int), vis).len() ==> #[trigger] self.walk_node(
                                tree,
                                fresh_paths(tree, children@.take(c as int), vis)[j],
                                queue@[q2.len() + j].1,
                                np.h_score,
                                gsp,
                            ),
                        decreases children.len() - c,
                    {
                        let cid = children[c];
                        let ghost q1 = queue@;
                        let ghost f0 = fresh_paths(tree, children@.take(c as int), vis);
                        proof {
                            lemma_visited_paths(tree, visited@, cid as int);
                            assert(children@.take(c + 1) =~= children@.take(c as int).push(cid));
                            assert(tree.id_paths(children@.take(c + 1)) =~= tree.id_paths(children@.take(c as int)).push(tree.arena.paths[cid as int]@));
                            tree.id_paths(children@.take(c as int)).lemma_filter_push(tree.arena.paths[cid as int]@, |x: Seq<char>| !vis.contains(x));
                            assert(tree.arena.depth[u as int] == spec_component_count(tree.arena.paths[u as int]@));
                        }
                        if !visited[cid] {
                            let is_file = tree.file[cid];
                            let h: i64 = if is_file {
                                node.h_score
                            } else {
                                proof {
                                    assert(self.heuristic_fn().requires((&tree.arena.paths[cid as int],)));
                                }
                                (self.heuristic)(&tree.arena.paths[cid])
                            };
                            let g = g_cost(depth, cfg.lambda, vectorized_count, cfg.mu);
                            queue.push((cid, SearchNode {
                                path: tree.arena.paths[cid].clone(),
                                f_score: h as i128 - g,
                                g_cost: g,
                                h_score: h,
                                is_file,
                                in_phase1: tree.tree_node[cid],
                            }));
                            proof {
                                assert(queue@[q1.len() as int].0 == cid);
                                assert forall|b: int| 0 <= b < c && !visited[#[trigger] children[b] as int] implies queued(queue@, children[b] as int) by {
                                    let k = choose|k: int| 0 <= k < q1.len() && (#[trigger] q1[k]).0 == children[b] as int;
                                    assert(queue@[k] == q1[k]);
                                }
                                let f1 = fresh_paths(tree, children@.take(c + 1), vis);
                                assert(f1 == f0.push(tree.arena.paths[cid as int]@));
                                assert forall|j: int| 0 <= j < f1.len() implies #[trigger] self.walk_node(tree, f1[j], queue@[q2.len() + j].1, np.h_score, gsp) by {
                                    if j < f0.len() {
                                        assert(queue@[q2.len() + j] == q1[q2.len() + j]);
                                        assert(f1[j] == f0[j]);
                                    } else {
                                        assert(q2.len() + j == q1.len());
                                    }
                                }
                            }
                        } else {
                            proof {
                                let f1 = fresh_paths(tree, children@.take(c + 1), vis);
                                assert(f1 == f0);
                            }
                        }
                        c = c + 1;
                    }
                }
                proof {
                    assert forall|x: int| 0 <= x < n && tree.tree_node[x] && tree.arena.tparent(x) == Some(u)
                        implies visited[x] || #[trigger] queued(queue@, x) by {
                        assert(children@.contains(x as usize));
                        let b = choose|b: int| 0 <= b < children.len() && children[b] == x as usize;
                        assert(visited[children[b] as int] || queued(queue@, children[b] as int));
                    }
                    let t: WalkState = (queue_nodes(queue@), visited_paths(tree, visited@), vectorized_count as nat, callback.heard());
                    let kids = tree.spec_expand(np.path@);
                    assert(kids == tree.id_paths(children@));
                    assert(children@.take(children.len() as int) =~= children@);
                    if children.len() > 0 {
                        let rest = st.0.remove(m as int);
                        assert(t.0.take(rest.len() as int) =~= rest) by {
                            assert forall|k: int| 0 <= k < rest.len() implies t.0[k] == rest[k] by {
                                assert(queue@[k] == q2[k]);
                            }
                        }
                        let fr = kids.filter(|c: Seq<char>| !vis.contains(c));
                        assert(fresh_paths(tree, children@, vis) == fr);
                        assert forall|j: int| 0 <= j < fr.len() implies #[trigger] self.walk_node(tree, fr[j], t.0[rest.len() + j], np.h_score, gsp) by {
                            assert(t.0[rest.len() + j] == queue@[q2.len() + j].1);
                        }
                    } else {
                        assert(queue@ == q2);
                    }
                    assert(self.walk_step(tree, st, m as int, t));
                    self.lemma_walk_extend(tree, h0, states, picks, m as int, t);
                    states = states.push(t);
                    picks = picks.push(m as int);
                }
            }
            proof {
                lemma_settle_step(tree, v0, visited@, q_before, m as int, q2, queue@, u as int);
            }
        }
        proof {
            if no_nested_inputs(tree.inputs()) {
                let rp = result_paths(phase1_results@);
                assert forall|k: int| 0 <= k < rp.len() implies tree.inputs().contains(#[trigger] rp[k]) by {
                    assert(tree.inputs().contains(phase1_results[k].path@));
                }
                lemma_distinct_candidates(rp, tree.inputs());
                if queue.len() == 0 {
                    assert(queue@ =~= Seq::<(usize, SearchNode)>::empty());
                    assert forall|x: Seq<char>| #[trigger] tree.inputs().contains(x) implies rp.contains(x) by {
                        let j = choose|j: int| 0 <= j < tree.inputs@.len() && tree.inputs@[j] == x;
                        assert(tree_ancestor(tree.inputs@[j], 0) == Some(x));
                        assert(in_tree(tree.inputs@, x));
                        assert(tree.arena.index@.contains_key(x));
                        let i = tree.arena.index@[x] as int;
                        assert(tree.file[i]);
                        assert(tree.tree_node[i]);
                        lemma_all_visited(tree, visited@, i);
                        assert(ids.contains(i as usize));
                        let k = choose|k: int| 0 <= k < ids.len() && ids[k] == i as usize;
                        assert(rp[k] == x);
                    }
                    lemma_distinct_candidates(rp, tree.inputs());
                }
            }
        }
        proof {
            assert(self.walk_stopped(tree, states.last()));
            assert(self.best_first_walk(tree, h0, states, picks));
            assert(callback.heard() == states.last().3);
        }
        let ghost res0 = phase1_results@;
        let mut out = sort_by_score_desc(phase1_results);
        let mut extra = sort_by_score_desc(suggestions);
        extra.truncate(cfg.k_suggest);
        let ghost o0 = out@;
        out.append(&mut extra);
        proof {
            assert(out@ =~= o0);
            assert forall|k: int| 0 <= k < out.len() implies {
                &&& (#[trigger] out[k]).in_phase1
                &&& tree.inputs().contains(out[k].path@)
                &&& self.scorer_fn().ensures((&out[k].path,), out[k].score)
            } by {
                assert(o0[k] == out[k]);
                assert(o0.contains(out[k]));
                assert(res0.contains(out[k]));
                assert(results_ok(tree, res0, ids, visited@, self.scorer));
                let j = choose|j: int| 0 <= j < res0.len() && res0[j] == out[k];
                assert(tree.inputs().contains(res0[j].path@));
                assert((ids[j] as int) < n);
                assert(res0[j].in_phase1);
                assert(self.scorer.ensures((&res0[j].path,), res0[j].score));
            }
            if no_nested_inputs(tree.inputs()) {
                assert forall|x: Seq<char>| #[trigger] tree.inputs().contains(x) implies result_paths(out@).contains(x) by {
                    let rp = result_paths(res0);
                    assert(rp.contains(x));
                    let k = choose|k: int| 0 <= k < rp.len() && rp[k] == x;
                    assert(res0.contains(res0[k]));
                    assert(out@.contains(res0[k]));
                    let j = choose|j: int| 0 <= j < out.len() && out[j] == res0[k];
                    assert(result_paths(out@)[j] == x);
                }
            }
            let nh = callback.heard();
            assert(nh.skip(h0.len() as int) =~= evs);
            assert(h0.is_prefix_of(nh)) by {
                assert(nh.subrange(0, h0.len() as int) =~= h0);
            }

            let idx = choose|idx: Seq<int>| #[trigger] score_stable(o0, res0, idx);
            assert(ranked_from(out@, found_files(evs), idx)) by {
                assert forall|k: int| 0 <= k < out.len() implies 0 <= #[trigger] idx[k] < found_files(evs).len()
                    && out@[k].path@ == found_files(evs)[idx[k]].0 && out@[k].score == found_files(evs)[idx[k]].1 by {
                    assert(o0[k] == res0[idx[k]]);
                    assert(result_files(res0)[idx[k]] == (res0[idx[k]].path@, res0[idx[k]].score));
                }
            }
            let w = (states, picks);
            assert(self.best_first_walk(tree, h0, w.0, w.1) && nh == w.0.last().3);
            let od = opened_dirs(evs);
            assert forall|a: int, b: int| 0 <= a < b < od.len() implies od[a] != od[b] by {
                assert(od[a] == tree.arena.paths[opened[a] as int]@);
                assert(od[b] == tree.arena.paths[opened[b] as int]@);
                assert(opened[a] != opened[b]);
                assert(tree.arena.index@[tree.arena.paths[opened[a] as int]@] == opened[a]);
                assert(tree.arena.index@[tree.arena.paths[opened[b] as int]@] == opened[b]);
            }
            assert forall|p: Seq<char>| #[trigger] od.contains(p) implies !tree.inputs().contains(p) by {
                let k = choose|k: int| 0 <= k < od.len() && od[k] == p;
                assert(od[k] == tree.arena.paths[opened[k] as int]@);
                assert(!tree.file[opened[k] as int]);
            }
        }
        out
    }
}

} // verus!
