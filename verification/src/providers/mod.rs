//! Search providers, their results, and how results from several providers are ranked.
use vstd::prelude::*;
use crate::desktop_entry::opt_view;
use crate::text::{trim, trim_str};
use crate::ranking::{
    first_n, insert_by_score, insert_pos, lemma_insert_split, lemma_sort_by_score_contains,
    lemma_sort_by_score_len, sort_by_score, sort_by_score_is_ordered, top_by_score,
};

pub mod apps;
pub mod calc;
pub mod files;


verus! {

/// What happens when a result is chosen.
#[derive(Clone, Debug)]
pub enum SearchAction {
    LaunchApp { exec_line: String },
    CopyToClipboard { text: String },
    OpenFile { path: String },
    OpenFolder { path: String },
    Custom { description: String },
}

/// One entry of the result list.
#[derive(Clone, Debug)]
pub struct SearchResult {
    pub id: String,
    pub title: String,
    pub subtitle: Option<String>,
    pub icon: Option<String>,
    pub score: i64,
    pub action: SearchAction,
    pub secondary_actions: Vec<(String, SearchAction)>,
}

/// A source of results for a query.
pub trait SearchProvider: Send + Sync {
    fn id(&self) -> &'static str;

    /// Added to the score of each of this provider's results; no boost unless the
    /// provider says otherwise.
    fn priority_boost(&self) -> (r: i64)
        default_ensures
            r == 0,
    {
        0
    }

    fn matches(&self, query: &str) -> Vec<SearchResult>;
}

/// What `Path::parent` gives for `path`, as text.
pub uninterp spec fn path_parent(path: Seq<char>) -> Option<Seq<char>>;

/// Calls `Path::parent`; the parent is returned as text. Its result is named, not
/// restated (it depends on the path's components).
#[verifier::external_body]
fn parent_of(path: &str) -> (r: Option<String>)
    ensures
        opt_view(r) == path_parent(path@),
{
    std::path::Path::new(path).parent().map(|p| p.to_string_lossy().into_owned())
}

/// The folder that "Open folder" opens for `path`: the path itself when it is a
/// directory, otherwise its parent (or the path when it has none).
pub open spec fn folder_of(path: Seq<char>, is_dir: bool) -> Seq<char> {
    if is_dir {
        path
    } else {
        match path_parent(path) {
            Some(p) => p,
            None => path,
        }
    }
}

/// "Open folder" opens a directory itself, and a file's parent directory
/// (`Path::parent`), or the file's path when it has none.
pub proof fn folder_is_dir_or_parent(path: Seq<char>, is_dir: bool)
    ensures
        is_dir ==> folder_of(path, is_dir) == path,
        !is_dir ==> folder_of(path, is_dir) == (match path_parent(path) {
            Some(p) => p,
            None => path,
        }),
{
}

/// The folder to open for `path`, given whether it is a directory.
pub fn folder_to_open(path: &str, is_dir: bool) -> (r: String)
    ensures
        r@ == folder_of(path@, is_dir),
{
    if is_dir {
        return path.to_owned();
    }
    match parent_of(path) {
        Some(p) => p,
        None => path.to_owned(),
    }
}

// ---------------------------------------------------------------- ranking

/// A result with `boost` added to its score (wrapping on overflow, as release builds do).
pub open spec fn boosted(r: SearchResult, boost: i64) -> SearchResult {
    SearchResult { score: r.score.wrapping_add(boost), ..r }
}

/// A boost of 0, the default, leaves a result as it is.
pub proof fn zero_boost_keeps_result(r: SearchResult)
    ensures
        boosted(r, 0) == r,
{
}

/// All results of the batches in order, each boosted by its batch's boost.
pub open spec fn merged(batches: Seq<(Seq<SearchResult>, i64)>) -> Seq<SearchResult>
    decreases batches.len(),
{
    if batches.len() == 0 {
        Seq::empty()
    } else {
        let b = batches.last();
        merged(batches.drop_last()) + b.0.map_values(|r: SearchResult| boosted(r, b.1))
    }
}

/// Merging takes the batches in order, each result with its batch's boost added to its
/// score (wrapping on overflow), everything else kept.
pub proof fn merged_appends_each_batch_boosted(batches: Seq<(Seq<SearchResult>, i64)>, b: (Seq<SearchResult>, i64))
    ensures
        merged(Seq::empty()) == Seq::<SearchResult>::empty(),
        merged(batches.push(b)).len() == merged(batches).len() + b.0.len(),
        forall|i: int| 0 <= i < merged(batches).len() ==> #[trigger] merged(batches.push(b))[i] == merged(batches)[i],
        forall|i: int|
            0 <= i < b.0.len() ==> {
                let r = #[trigger] merged(batches.push(b))[merged(batches).len() + i];
                &&& r.score == b.0[i].score.wrapping_add(b.1)
                &&& r.id == b.0[i].id
                &&& r.title == b.0[i].title
                &&& r.subtitle == b.0[i].subtitle
                &&& r.icon == b.0[i].icon
                &&& r.action == b.0[i].action
                &&& r.secondary_actions == b.0[i].secondary_actions
            },
{
    assert(batches.push(b).drop_last() =~= batches);
}

/// The results paired with their scores.
pub open spec fn scored(rs: Seq<SearchResult>) -> Seq<(i64, SearchResult)> {
    rs.map_values(|r: SearchResult| (r.score, r))
}

/// The merged results stably sorted by score, highest first.
pub open spec fn ranked(batches: Seq<(Seq<SearchResult>, i64)>) -> Seq<SearchResult> {
    sort_by_score(scored(merged(batches))).map_values(|p: (i64, SearchResult)| p.1)
}

/// The batches as (results, boost) pairs of values.
pub open spec fn batches_view(b: Seq<(Vec<SearchResult>, i64)>) -> Seq<(Seq<SearchResult>, i64)> {
    b.map_values(|p: (Vec<SearchResult>, i64)| (p.0@, p.1))
}

/// Merges the results of several providers, each batch with its provider's boost
/// added to the scores, into one list sorted by score, highest first.
pub fn rank_results(batches: Vec<(Vec<SearchResult>, i64)>) -> (r: Vec<SearchResult>)
    ensures
        r@ == ranked(batches_view(batches@)),
        ordered_results(r@),
{
    let ghost all = batches_view(batches@);
    let mut pairs: Vec<(i64, SearchResult)> = Vec::new();
    assert(scored(merged(all.take(0))) =~= pairs@);
    for batch in it: batches.into_iter()
        invariant
            all == batches_view(it.seq()),
            pairs@ == scored(merged(all.take(it.index() as int))),
    {
        let ghost i = it.index() as int;
        assert(all.take(i + 1).drop_last() =~= all.take(i));
        assert(all.take(i + 1).last() == (batch.0@, batch.1));
        let (results, boost) = batch;
        let ghost base = pairs@;
        let ghost add = results@.map_values(|r: SearchResult| boosted(r, boost));
        for res in jt: results.into_iter()
            invariant
                jt.seq() == results@,
                add == results@.map_values(|r: SearchResult| boosted(r, boost)),
                pairs@ == base + scored(add.take(jt.index() as int)),
        {
            let ghost j = jt.index() as int;
            let mut res = res;
            if boost != 0 {
                res.score = res.score.wrapping_add(boost);
            }
            assert(res == boosted(results@[j], boost));
            pairs.push((res.score, res));
            assert(add.take(j + 1) =~= add.take(j).push(add[j]));
            assert(pairs@ =~= base + scored(add.take(j + 1)));
        }
        assert(add.take(add.len() as int) =~= add);
        assert(scored(merged(all.take(i + 1))) =~= base + scored(add));
    }
    assert(all.take(all.len() as int) =~= all);
    let n = pairs.len();
    let ghost ps = pairs@;
    let sorted = top_by_score(pairs, n);
    assert(first_n(sort_by_score(ps), n as int) == sort_by_score(ps)) by {
        lemma_sort_by_score_len(ps);
    }
    let ghost sv = sorted@;
    let mut out: Vec<SearchResult> = Vec::new();
    for p in it: sorted.into_iter()
        invariant
            it.seq() == sv,
            out@ == sv.take(it.index() as int).map_values(|p: (i64, SearchResult)| p.1),
    {
        let ghost i = it.index() as int;
        out.push(p.1);
        assert(out@ =~= sv.take(i + 1).map_values(|p: (i64, SearchResult)| p.1));
    }
    assert(sv.take(sv.len() as int) =~= sv);
    proof {
        ranked_results_are_ordered(all);
    }
    out
}

// ---------------------------------------------------------------- laws of ranking

/// Scores never increase along the list.
pub open spec fn ordered_results(r: Seq<SearchResult>) -> bool {
    forall|i: int, j: int| 0 <= i < j < r.len() ==> #[trigger] r[j].score <= #[trigger] r[i].score
}

/// Ranked results come highest score first.
pub proof fn ranked_results_are_ordered(batches: Seq<(Seq<SearchResult>, i64)>)
    ensures
        ordered_results(ranked(batches)),
        forall|i: int, j: int|
            0 <= i < j < ranked(batches).len() ==> #[trigger] ranked(batches)[j].score <= #[trigger] ranked(
                batches,
            )[i].score,
{
    let ps = scored(merged(batches));
    let sorted = sort_by_score(ps);
    sort_by_score_is_ordered(ps);
    let r = ranked(batches);
    assert forall|k: int| 0 <= k < sorted.len() implies (#[trigger] sorted[k]).0 == sorted[k].1.score by {
        lemma_sort_by_score_contains(ps, sorted[k]);
        assert(sorted.contains(sorted[k]));
        let w = choose|w: int| 0 <= w < ps.len() && ps[w] == sorted[k];
        assert(ps[w].0 == ps[w].1.score);
    }
    assert forall|i: int, j: int| 0 <= i < j < r.len() implies #[trigger] r[j].score <= #[trigger] r[i].score by {
        assert(r[i] == sorted[i].1 && r[j] == sorted[j].1);
        assert(sorted[j].0 <= sorted[i].0);
    }
}

/// The second components of pairs.
pub open spec fn seconds<T>(s: Seq<(i64, T)>) -> Seq<T> {
    s.map_values(|p: (i64, T)| p.1)
}

proof fn lemma_seconds_insert<T>(t: Seq<(i64, T)>, x: (i64, T))
    ensures
        seconds(insert_by_score(t, x)).to_multiset() == seconds(t).to_multiset().insert(x.1),
{
    broadcast use vstd::seq_lib::group_to_multiset_ensures, vstd::seq_lib::lemma_multiset_commutative;

    lemma_insert_split(t, x);
    let p = insert_pos(t, x);
    let a = seconds(t.take(p));
    let b = seconds(t.skip(p));
    assert(seconds(insert_by_score(t, x)) =~= a.push(x.1) + b);
    assert(seconds(t) =~= a + b);
}

proof fn lemma_sorted_seconds<T>(s: Seq<(i64, T)>)
    ensures
        seconds(sort_by_score(s)).to_multiset() == seconds(s).to_multiset(),
    decreases s.len(),
{
    broadcast use vstd::seq_lib::group_to_multiset_ensures;

    if s.len() > 0 {
        lemma_sorted_seconds(s.drop_last());
        lemma_seconds_insert(sort_by_score(s.drop_last()), s.last());
        assert(seconds(s) =~= seconds(s.drop_last()).push(s.last().1));
    }
}

/// Ranking rearranges the merged results: none is added, dropped or duplicated.
pub proof fn ranked_results_are_permutation(batches: Seq<(Seq<SearchResult>, i64)>)
    ensures
        ranked(batches).to_multiset() == merged(batches).to_multiset(),
{
    let m = merged(batches);
    lemma_sorted_seconds(scored(m));
    assert(seconds(scored(m)) =~= m);
    assert(ranked(batches) == seconds(sort_by_score(scored(m))));
}

/// `batch` is what provider `p` answers to `query`: the results its `matches` gives for
/// that text, and the boost its `priority_boost` gives.
pub open spec fn provider_answer<P: SearchProvider + ?Sized>(
    p: &P,
    query: Seq<char>,
    batch: (Vec<SearchResult>, i64),
) -> bool {
    &&& exists|q: &str| q@ == query && #[trigger] call_ensures(P::matches, (p, q), batch.0)
    &&& call_ensures(P::priority_boost, (p,), batch.1)
}

/// Asks provider `p` for its results on `query`, and for its boost.
fn ask_provider<P: SearchProvider + ?Sized>(p: &P, query: &str) -> (r: (Vec<SearchResult>, i64))
    ensures
        provider_answer(p, query@, r),
{
    let r = (p.matches(query), p.priority_boost());
    assert(call_ensures(P::matches, (p, query), r.0));
    r
}

/// Runs the registered providers in turn on a query.
pub struct ProviderManager {
    providers: Vec<Box<dyn SearchProvider>>,
}

impl Default for ProviderManager {
    fn default() -> (r: Self)
        ensures
            r.provider_count() == 0,
    {
        ProviderManager::new()
    }
}

impl ProviderManager {
    /// A manager without providers.
    pub fn new() -> (r: Self)
        ensures
            r.provider_count() == 0,
    {
        ProviderManager { providers: Vec::new() }
    }

    /// How many providers are registered.
    pub closed spec fn provider_count(&self) -> nat {
        self.providers@.len()
    }

    /// The registered providers, in registration order.
    pub closed spec fn providers(&self) -> Seq<Box<dyn SearchProvider>> {
        self.providers@
    }

    /// Registers a provider after those already there.
    pub fn add_provider(&mut self, provider: Box<dyn SearchProvider>)
        ensures
            final(self).provider_count() == old(self).provider_count() + 1,
            final(self).providers() == old(self).providers().push(provider),
    {
        let ghost before = self.providers@;
        self.providers.push(provider);
        assert(self.providers@ == before.push(provider));
        proof {
            vstd::seq::axiom_seq_push_len(before, provider);
        }
        assert(self.provider_count() == before.len() + 1);
    }

    /// Asks every provider, in registration order, for its results on the trimmed query
    /// and for its boost, and ranks all the results together (see [`rank_results`]).
    pub fn search(&self, query: &str) -> (r: Vec<SearchResult>)
        ensures
            exists|b: Seq<(Vec<SearchResult>, i64)>|
                {
                    &&& b.len() == self.provider_count()
                    &&& forall|i: int|
                        0 <= i < b.len() ==> provider_answer(&*self.providers()[i], trim(query@), #[trigger] b[i])
                    &&& r@ == ranked(batches_view(b))
                },
            ordered_results(r@),
    {
        let trimmed = trim_str(query);
        let mut batches: Vec<(Vec<SearchResult>, i64)> = Vec::new();
        let mut i: usize = 0;
        while i < self.providers.len()
            invariant
                i <= self.providers@.len(),
                batches@.len() == i,
                trimmed@ == trim(query@),
                forall|k: int|
                    0 <= k < i ==> provider_answer(&*self.providers@[k], trim(query@), #[trigger] batches@[k]),
            decreases self.providers@.len() - i,
        {
            let batch = ask_provider(&*self.providers[i], trimmed.as_str());
            let ghost before = batches@;
            batches.push(batch);
            proof {
                vstd::seq::axiom_seq_push_len(before, batch);
            }
            assert forall|k: int| 0 <= k < i + 1 implies provider_answer(
                &*self.providers@[k],
                trim(query@),
                #[trigger] batches@[k],
            ) by {
                if k < i {
                    assert(batches@[k] == before[k]);
                }
            }
            i = i + 1;
        }
        let r = rank_results(batches);
        r
    }
}

} // verus!
