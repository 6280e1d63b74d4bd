//! The search pipeline: parse the query, fetch candidate paths, build the
//! virtual tree, and search it.

use crate::engine::{
    result_paths, search_reported, sorted_desc, AstarConfig, AstarEngine, ExploreCallback, ExploreEvent, SearchResult, WalkState,
};
use crate::everything::{next_generation, search, MatchOptions, SearchEpochs, SearchError};
use crate::parser::{parse_query, spec_everything_query, spec_date_modifier, spec_extensions, spec_keywords,
    spec_path, spec_size, opt_string, ParsedQuery};
use crate::text::{spec_lowercase, sviews};
use crate::tree::{no_dups, no_nested_inputs, normal_forms, VirtualTree};
use vstd::prelude::*;

verus! {

/// Settings of the pipeline.
pub struct PipelineConfig {
    pub astar: AstarConfig,
    /// The most candidates fetched from Everything.
    pub everything_max: u32,
}

impl Default for PipelineConfig {
    fn default() -> (c: Self)
        ensures
            c.astar.lambda == 100_000,
            c.astar.mu == 1_000,
            c.astar.top_k == 20,
            c.astar.suggest_threshold == 600_000,
            c.astar.k_suggest == 10,
            c.everything_max == 1000,
    {
        PipelineConfig { astar: AstarConfig::default(), everything_max: 1000 }
    }
}

/// Why the pipeline failed.
#[derive(Debug)]
pub enum PipelineError {
    /// The Everything search failed.
    Everything(SearchError),
    /// The virtual tree could not be built; the reason is given.
    TreeBuild(String),
}

/// What a search over candidate files returns: the candidates' results,
/// highest score first, each scored by `scorer`, each path once; all
/// candidates when none lies below another.
pub open spec fn search_outcome<S: Fn(&String) -> i64>(
    inputs: Seq<Seq<char>>,
    scorer: S,
    r: Seq<SearchResult>,
) -> bool {
    &&& sorted_desc(r)
    &&& no_dups(result_paths(r))
    &&& forall|k: int| 0 <= k < r.len() ==> {
        &&& (#[trigger] r[k]).in_phase1
        &&& inputs.contains(r[k].path@)
        &&& scorer.ensures((&r[k].path,), r[k].score)
    }
    &&& no_nested_inputs(inputs) ==> r.len() == inputs.to_set().len()
    &&& no_nested_inputs(inputs) ==> forall|x: Seq<char>| #[trigger] inputs.contains(x) ==> result_paths(r).contains(x)
}

/// A best-first walk of `engine` over a tree built from candidates `inputs`
/// (with no extra folders), from a callback that had heard `before` to one
/// that has heard `after`.
pub open spec fn walked<H: Fn(&String) -> i64, S: Fn(&String) -> i64>(
    engine: AstarEngine<H, S>,
    inputs: Seq<Seq<char>>,
    before: Seq<ExploreEvent>,
    after: Seq<ExploreEvent>,
) -> bool {
    exists|x: (VirtualTree, Seq<WalkState>, Seq<int>)|
        #[trigger] engine.best_first_walk(&x.0, before, x.1, x.2) && x.0.wf() && x.0.inputs() == inputs
            && x.0.folders() == Seq::<Seq<char>>::empty() && after == x.1.last().3
}

/// Builds the virtual tree of `paths` and searches it; no paths give no results.
pub fn run_with_paths<H: Fn(&String) -> i64, S: Fn(&String) -> i64, C: ExploreCallback>(
    config: &AstarConfig,
    paths: &[String],
    heuristic: H,
    scorer: S,
    callback: &mut C,
) -> (r: Vec<SearchResult>)
    requires
        forall|p: &String| #[trigger] heuristic.requires((p,)),
        forall|p: &String| #[trigger] scorer.requires((p,)),
    ensures
        paths.len() == 0 ==> r.len() == 0 && final(callback).heard() == old(callback).heard(),
        search_outcome(normal_forms(paths@), scorer, r@),
        paths.len() > 0 ==> search_reported(old(callback).heard(), final(callback).heard(), r@, normal_forms(paths@)),
        paths.len() > 0 ==> exists|e: AstarEngine<H, S>|
            e.config_spec() == *config && e.heuristic_fn() == heuristic && e.scorer_fn() == scorer
                && #[trigger] walked(e, normal_forms(paths@), old(callback).heard(), final(callback).heard()),
{
    if paths.len() == 0 {
        let r: Vec<SearchResult> = Vec::new();
        proof {
            assert(normal_forms(paths@).to_set() =~= Set::<Seq<char>>::empty());
            assert(result_paths(r@) =~= Seq::<Seq<char>>::empty());
        }
        return r;
    }
    let tree = VirtualTree::from_paths(paths);
    let engine = AstarEngine::new(*config, heuristic, scorer);
    let ghost before = callback.heard();
    let r = engine.search(&tree, callback);
    proof {
        let w = choose|w: (Seq<WalkState>, Seq<int>)|
            #[trigger] engine.best_first_walk(&tree, before, w.0, w.1) && callback.heard() == w.0.last().3;
        let x = (tree, w.0, w.1);
        assert(engine.best_first_walk(&x.0, before, x.1, x.2) && x.0.wf() && x.0.inputs() == normal_forms(paths@)
            && x.0.folders() == Seq::<Seq<char>>::empty() && callback.heard() == x.1.last().3);
        assert(walked(engine, normal_forms(paths@), before, callback.heard()));
    }
    r
}

/// The parsed query and its Everything form, for showing before a search.
pub fn preview_query(query: &str) -> (r: (ParsedQuery, String))
    ensures
        opt_string(r.0.date_modified) == spec_date_modifier(spec_lowercase(query@)),
        r.0.min_size == spec_size(spec_lowercase(query@)).0,
        r.0.max_size == spec_size(spec_lowercase(query@)).1,
        sviews(r.0.extensions@) == spec_extensions(spec_lowercase(query@)),
        opt_string(r.0.path_filter) == spec_path(query@),
        sviews(r.0.keywords@) == spec_keywords(query@),
        r.1@ == spec_everything_query(
            sviews(r.0.keywords@),
            sviews(r.0.extensions@),
            opt_string(r.0.path_filter),
            r.0.min_size,
            r.0.max_size,
            opt_string(r.0.date_modified),
        ),
{
    let parsed = parse_query(query);
    let ev = parsed.to_everything_query();
    (parsed, ev)
}

/// The two-phase search pipeline: parse the query, fetch candidates from
/// Everything, build the virtual tree, and search it.
pub struct SearchPipeline<H, S> {
    everything_max: u32,
    engine: AstarEngine<H, S>,
}

impl<H: Fn(&String) -> i64, S: Fn(&String) -> i64> SearchPipeline<H, S> {
    /// The engine that searches the tree.
    pub closed spec fn engine_spec(&self) -> AstarEngine<H, S> {
        self.engine
    }

    pub fn new(config: PipelineConfig, heuristic: H, scorer: S) -> (p: Self)
        ensures
            p.engine_spec().config_spec() == config.astar,
            p.engine_spec().heuristic_fn() == heuristic,
            p.engine_spec().scorer_fn() == scorer,
    {
        SearchPipeline { everything_max: config.everything_max, engine: AstarEngine::new(config.astar, heuristic, scorer) }
    }

    /// The candidates that Everything finds for a query in its syntax, at most
    /// `everything_max`, in a search epoch of their own; a failed search is
    /// reported as such. This platform has no Everything, so there are none.
    fn fetch_candidates(&self, query: &str) -> (r: Result<Vec<String>, PipelineError>)
        ensures
            r matches Ok(v) && v.len() == 0,
    {
        let mut epochs = SearchEpochs::new();
        let generation = next_generation(&mut epochs);
        let opts = MatchOptions { case_sensitive: false, whole_word: false, match_path: false };
        match search(query, self.everything_max, opts, generation) {
            Ok(found) => {
                let mut paths: Vec<String> = Vec::new();
                let mut k: usize = 0;
                while k < found.len()
                    invariant
                        k <= found.len(),
                        paths.len() == k,
                    decreases found.len() - k,
                {
                    paths.push(found[k].path.clone());
                    k = k + 1;
                }
                Ok(paths)
            },
            Err(e) => Err(PipelineError::Everything(e)),
        }
    }

    /// Searches the candidates that a fetch gave: a failed fetch is passed
    /// on, no candidates give no results, and otherwise the virtual tree of
    /// the candidates is searched with this pipeline's engine.
    pub fn search_candidates<C: ExploreCallback>(
        &self,
        fetched: Result<Vec<String>, PipelineError>,
        callback: &mut C,
    ) -> (r: Result<Vec<SearchResult>, PipelineError>)
        requires
            forall|p: &String| #[trigger] self.engine_spec().heuristic_fn().requires((p,)),
            forall|p: &String| #[trigger] self.engine_spec().scorer_fn().requires((p,)),
        ensures
            match fetched {
                Err(e) => r matches Err(e2) && e2 == e && final(callback).heard() == old(callback).heard(),
                Ok(paths) => r matches Ok(v) && (paths.len() == 0 ==> v.len() == 0 && final(callback).heard() == old(
                    callback,
                ).heard()) && search_outcome(normal_forms(paths@), self.engine_spec().scorer_fn(), v@) && (paths.len()
                    > 0 ==> search_reported(old(callback).heard(), final(callback).heard(), v@, normal_forms(paths@))
                    && walked(self.engine_spec(), normal_forms(paths@), old(callback).heard(), final(callback).heard())),
            },
    {
        let paths = match fetched {
            Ok(p) => p,
            Err(e) => {
                return Err(e);
            },
        };
        if paths.len() == 0 {
            let r: Vec<SearchResult> = Vec::new();
            proof {
                assert(normal_forms(paths@).to_set() =~= Set::<Seq<char>>::empty());
                assert(result_paths(r@) =~= Seq::<Seq<char>>::empty());
            }
            return Ok(r);
        }
        let tree = VirtualTree::from_paths(paths.as_slice());
        proof {
            assert forall|p: &String| #[trigger] self.engine.heuristic_fn().requires((p,)) by {
                assert(self.engine_spec().heuristic_fn().requires((p,)));
            }
            assert forall|p: &String| #[trigger] self.engine.scorer_fn().requires((p,)) by {
                assert(self.engine_spec().scorer_fn().requires((p,)));
            }
        }
        let ghost before = callback.heard();
        let r = self.engine.search(&tree, callback);
        proof {
            let w = choose|w: (Seq<WalkState>, Seq<int>)|
                #[trigger] self.engine.best_first_walk(&tree, before, w.0, w.1) && callback.heard() == w.0.last().3;
            let x = (tree, w.0, w.1);
            assert(self.engine.best_first_walk(&x.0, before, x.1, x.2) && x.0.wf() && x.0.inputs() == normal_forms(paths@)
                && x.0.folders() == Seq::<Seq<char>>::empty() && callback.heard() == x.1.last().3);
            assert(walked(self.engine_spec(), normal_forms(paths@), before, callback.heard()));
        }
        Ok(r)
    }

    /// Searches the candidates that Everything finds for a parsed query;
    /// without Everything there are none, so nothing is found.
    pub fn run_parsed<C: ExploreCallback>(&self, parsed: &ParsedQuery, callback: &mut C) -> (r: Result<Vec<SearchResult>, PipelineError>)
        requires
            forall|p: &String| #[trigger] self.engine_spec().heuristic_fn().requires((p,)),
            forall|p: &String| #[trigger] self.engine_spec().scorer_fn().requires((p,)),
        ensures
            r matches Ok(v) && v.len() == 0,
            final(callback).heard() == old(callback).heard(),
    {
        let everything_query = parsed.to_everything_query();
        let fetched = self.fetch_candidates(everything_query.as_str());
        self.search_candidates(fetched, callback)
    }

    /// Parses a natural-language query and searches the candidates that
    /// Everything finds for it; without Everything, nothing is found.
    pub fn run<C: ExploreCallback>(&self, query: &str, callback: &mut C) -> (r: Result<Vec<SearchResult>, PipelineError>)
        requires
            forall|p: &String| #[trigger] self.engine_spec().heuristic_fn().requires((p,)),
            forall|p: &String| #[trigger] self.engine_spec().scorer_fn().requires((p,)),
        ensures
            r matches Ok(v) && v.len() == 0,
            final(callback).heard() == old(callback).heard(),
    {
        let parsed = parse_query(query);
        self.run_parsed(&parsed, callback)
    }
}

} // verus!
