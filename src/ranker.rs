use vstd::prelude::*;
use crate::search::str_eq;

verus! {

/// What a ranked result stands for.
#[derive(Debug, Clone, Copy, PartialEq, Eq, Structural)]
pub enum SearchResultType {
    Document,
    Entity,
    Chunk,
}

/// A highlighted span `[start, end)` of a result's text.
#[derive(Debug, Clone)]
pub struct TextHighlight {
    pub start: usize,
    pub end: usize,
    pub text: String,
}

/// How a caller wants results delivered.
#[derive(Debug, Clone, Copy)]
pub struct SearchOptions {
    pub limit: Option<usize>,
    pub offset: Option<usize>,
    pub include_snippets: bool,
    pub highlight_matches: bool,
    pub fuzzy_matching: bool,
    pub semantic_search: bool,
    pub boost_recent: bool,
}

impl Default for SearchOptions {
    fn default() -> (r: SearchOptions)
        ensures
            r.limit == Some(20usize),
            r.offset == Some(0usize),
            r.include_snippets,
            r.highlight_matches,
            !r.fuzzy_matching,
            !r.semantic_search,
            r.boost_recent,
    {
        SearchOptions {
            limit: Some(20),
            offset: Some(0),
            include_snippets: true,
            highlight_matches: true,
            fuzzy_matching: false,
            semantic_search: false,
            boost_recent: true,
        }
    }
}

/// The kind and source of a ranked result, which diversification reads.
#[derive(Debug, Clone)]
pub struct DiversityKey {
    pub result_type: SearchResultType,
    pub source_type: String,
}

/// How many of the kept positions `kept` have the given kind.
pub open spec fn count_type(keys: Seq<DiversityKey>, kept: Seq<int>, t: SearchResultType) -> nat
    decreases kept.len(),
{
    if kept.len() == 0 {
        0
    } else {
        count_type(keys, kept.drop_last(), t) + if keys[kept.last()].result_type == t {
            1nat
        } else {
            0nat
        }
    }
}

/// How many of the kept positions `kept` have the given source.
pub open spec fn count_source(keys: Seq<DiversityKey>, kept: Seq<int>, s: Seq<char>) -> nat
    decreases kept.len(),
{
    if kept.len() == 0 {
        0
    } else {
        count_source(keys, kept.drop_last(), s) + if keys[kept.last()].source_type@ == s {
            1nat
        } else {
            0nat
        }
    }
}

/// The positions that diversification keeps among the first `n` results: in rank order, a
/// result stays while fewer than `per_type` kept results share its kind and fewer than
/// `per_source` share its source.
pub open spec fn diversified(keys: Seq<DiversityKey>, n: int, per_type: nat, per_source: nat) -> Seq<int>
    decreases n,
{
    if n <= 0 {
        seq![]
    } else {
        let d = diversified(keys, n - 1, per_type, per_source);
        let k = keys[n - 1];
        if count_type(keys, d, k.result_type) < per_type && count_source(keys, d, k.source_type@) < per_source {
            d.push(n - 1)
        } else {
            d
        }
    }
}

/// Caps how many results of one kind and of one source a ranked list keeps.
#[derive(Debug, Clone, Copy)]
pub struct ResultDiversifier {
    pub max_results_per_type: usize,
    pub max_results_per_source: usize,
}

impl ResultDiversifier {
    pub fn new() -> (r: ResultDiversifier)
        ensures
            r.max_results_per_type == 10,
            r.max_results_per_source == 5,
    {
        ResultDiversifier { max_results_per_type: 10, max_results_per_source: 5 }
    }

    pub fn set_diversity_limits(&mut self, max_per_type: usize, max_per_source: usize)
        ensures
            final(self).max_results_per_type == max_per_type,
            final(self).max_results_per_source == max_per_source,
    {
        self.max_results_per_type = max_per_type;
        self.max_results_per_source = max_per_source;
    }

    /// The positions of the ranked results that stay, in rank order.
    pub fn diversify_results(&self, keys: &Vec<DiversityKey>) -> (r: Vec<usize>)
        ensures
            r@.map_values(|x: usize| x as int) == diversified(
                keys@,
                keys@.len() as int,
                self.max_results_per_type as nat,
                self.max_results_per_source as nat,
            ),
    {
        let ghost mt = self.max_results_per_type as nat;
        let ghost ms = self.max_results_per_source as nat;
        let mut kept: Vec<usize> = Vec::new();
        let mut i: usize = 0;
        while i < keys.len()
            invariant
                i <= keys.len(),
                mt == self.max_results_per_type,
                ms == self.max_results_per_source,
                kept@.map_values(|x: usize| x as int) == diversified(keys@, i as int, mt, ms),
                forall|j: int| 0 <= j < kept.len() ==> #[trigger] kept@[j] < i,
            decreases keys.len() - i,
        {
            let ghost kv = kept@.map_values(|x: usize| x as int);
            let mut nt: usize = 0;
            let mut ns: usize = 0;
            let mut j: usize = 0;
            while j < kept.len()
                invariant
                    j <= kept.len(),
                    i < keys.len(),
                    kv == kept@.map_values(|x: usize| x as int),
                    forall|x: int| 0 <= x < kept.len() ==> #[trigger] kept@[x] < i,
                    nt <= j,
                    ns <= j,
                    nt == count_type(keys@, kv.subrange(0, j as int), keys@[i as int].result_type),
                    ns == count_source(keys@, kv.subrange(0, j as int), keys@[i as int].source_type@),
                decreases kept.len() - j,
            {
                let ghost next = kv.subrange(0, j + 1);
                assert(next.drop_last() =~= kv.subrange(0, j as int));
                assert(next.last() == kept@[j as int] as int);
                let other = &keys[kept[j]];
                if other.result_type == keys[i].result_type {
                    nt = nt + 1;
                }
                if str_eq(other.source_type.as_str(), keys[i].source_type.as_str()) {
                    ns = ns + 1;
                }
                j = j + 1;
            }
            assert(kv.subrange(0, j as int) =~= kv);
            if nt < self.max_results_per_type && ns < self.max_results_per_source {
                kept.push(i);
                assert(kept@.map_values(|x: usize| x as int) =~= kv.push(i as int));
            }
            i = i + 1;
        }
        kept
    }
}

} // verus!
