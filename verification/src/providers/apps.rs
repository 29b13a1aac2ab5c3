//! The application provider: fuzzy matching of the application list.
use vstd::prelude::*;
use nucleo_matcher::pattern::{CaseMatching, Normalization, Pattern};
use nucleo_matcher::{Config, Matcher, Utf32Str};
use crate::desktop_entry::{opt_view, AppEntry};
use crate::text::{chars_of, extend_chars, string_from_chars, trim, trim_str};
use crate::ranking::{sort_by_score, sort_by_score_is_ordered, top_by_score};
use super::{ordered_results, SearchAction, SearchResult};

verus! {

/// What `Pattern::score` returns for the pattern `Pattern::parse(query, Smart, Smart)`
/// matched against `haystack` by a matcher with `Config::DEFAULT` (with
/// `Config::DEFAULT.match_paths()` when `match_paths` holds).
pub uninterp spec fn pattern_score(query: Seq<char>, haystack: Seq<char>, match_paths: bool) -> Option<u32>;

/// The longest word of a query, in characters, that the matcher scores without overflow.
pub const MAX_WORD_CHARS: usize = 2048;

/// The longest query, in characters, whose word scores the matcher adds up without
/// overflow (`u32::MAX / 36`).
pub const MAX_QUERY_CHARS: usize = 119304647;

/// Whether the `i`-th character of `q` separates two words of a pattern: a space that
/// does not follow a backslash.
pub open spec fn splits_at(q: Seq<char>, i: int) -> bool {
    q[i] == ' ' && !(i > 0 && q[i - 1] == '\\')
}

/// The number of characters of the last word of `q`: those after its last separating
/// space.
pub open spec fn last_word_len(q: Seq<char>) -> nat
    decreases q.len(),
{
    if q.len() == 0 {
        0
    } else if splits_at(q, q.len() - 1) {
        0
    } else {
        last_word_len(q.drop_last()) + 1
    }
}

/// Every word of `q` has at most [`MAX_WORD_CHARS`] characters.
pub open spec fn words_fit(q: Seq<char>) -> bool
    decreases q.len(),
{
    q.len() == 0 || (words_fit(q.drop_last()) && last_word_len(q) <= MAX_WORD_CHARS)
}

/// A query the matcher scores without overflow: no word longer than
/// [`MAX_WORD_CHARS`] and at most [`MAX_QUERY_CHARS`] characters in all.
pub open spec fn matcher_takes(q: Seq<char>) -> bool {
    q.len() <= MAX_QUERY_CHARS && words_fit(q)
}

/// Text the matcher takes as a haystack: at most `u32::MAX` bytes of UTF-8.
pub open spec fn fits_matcher(s: Seq<char>) -> bool {
    vstd::utf8::encode_utf8(s).len() <= u32::MAX
}

/// Whether the matcher scores `query` without overflow.
pub fn query_fits_matcher(query: &str) -> (r: bool)
    ensures
        r == matcher_takes(query@),
{
    let cs = chars_of(query);
    if cs.len() > MAX_QUERY_CHARS {
        return false;
    }
    let mut run: usize = 0;
    let mut ok = true;
    let mut i: usize = 0;
    assert(cs@.take(0) =~= Seq::<char>::empty());
    while i < cs.len()
        invariant
            i <= cs@.len(),
            cs@ == query@,
            run == last_word_len(cs@.take(i as int)),
            ok == words_fit(cs@.take(i as int)),
            run <= i,
        decreases cs@.len() - i,
    {
        let ghost t = cs@.take(i + 1);
        assert(t.drop_last() =~= cs@.take(i as int));
        assert(t[i as int] == cs@[i as int]);
        assert(i > 0 ==> t[i - 1] == cs@[i - 1]);
        if cs[i] == ' ' && !(i > 0 && cs[i - 1] == '\\') {
            run = 0;
        } else {
            run = run + 1;
        }
        ok = ok && run <= MAX_WORD_CHARS;
        i = i + 1;
    }
    assert(cs@.take(cs@.len() as int) =~= cs@);
    ok
}

/// Scores each haystack against `query` with `Pattern::score` (nucleo-matcher), using one
/// pattern parsed by `Pattern::parse(query, CaseMatching::Smart, Normalization::Smart)` and
/// one matcher built from `Config::DEFAULT`. The `requires` leaves out the inputs on which
/// the matcher panics:
/// - it asserts that a haystack is at most `u32::MAX` long, counted in bytes when
///   `Utf32Str::new` keeps it as ASCII and in graphemes (no more than its bytes)
///   otherwise, so each haystack is bounded in bytes of UTF-8;
/// - `calculate_score` adds, in a `u16`, up to 36 for the first character of a word of
///   the pattern (an atom: the text between spaces not escaped by a backslash, its
///   needle no longer than that text) and up to 26 for each further one; words of at most
///   `MAX_WORD_CHARS` characters keep it below 53259;
/// - `Pattern::score` adds the words' scores in a `u32`; each word scores at most 36 per
///   character, so a query of at most `MAX_QUERY_CHARS` characters keeps the sum below
///   `u32::MAX`.
#[verifier::external_body]
pub(crate) fn default_scores(query: &str, haystacks: &Vec<&str>) -> (r: Vec<Option<u32>>)
    requires
        matcher_takes(query@),
        forall|i: int| 0 <= i < haystacks@.len() ==> fits_matcher((#[trigger] haystacks@[i])@),
    ensures
        r@.len() == haystacks@.len(),
        forall|i: int|
            0 <= i < haystacks@.len() ==> #[trigger] r@[i] == pattern_score(query@, haystacks@[i]@, false),
{
    let pattern = Pattern::parse(query, CaseMatching::Smart, Normalization::Smart);
    let mut matcher = Matcher::new(Config::DEFAULT);
    let mut buf = Vec::new();
    haystacks.iter().map(|h| pattern.score(Utf32Str::new(h, &mut buf), &mut matcher)).collect()
}

/// Each application's name and command fit the matcher.
pub open spec fn apps_fit_matcher(apps: Seq<AppEntry>) -> bool {
    forall|i: int|
        0 <= i < apps.len() ==> fits_matcher((#[trigger] apps[i]).name@) && fits_matcher(apps[i].exec_line@)
}

/// The score of an application for a non-empty query: the match score of its name, or
/// else seven tenths of the match score of its command; `None` when neither matches.
pub open spec fn app_score(query: Seq<char>, a: AppEntry) -> Option<i64> {
    match pattern_score(query, a.name@, false) {
        Some(s) => Some(s as i64),
        None => match pattern_score(query, a.exec_line@, false) {
            Some(e) => Some(((e as i64 * 7) / 10) as i64),
            None => None,
        },
    }
}

/// The (score, position) of each matching application, in list order.
pub open spec fn app_hits(query: Seq<char>, apps: Seq<AppEntry>) -> Seq<(i64, usize)>
    decreases apps.len(),
{
    if apps.len() == 0 {
        Seq::empty()
    } else {
        let h = app_hits(query, apps.drop_last());
        match app_score(query, apps.last()) {
            Some(s) => h.push((s, (apps.len() - 1) as usize)),
            None => h,
        }
    }
}

/// `r` is the result for application `a` with score `score`: titled by its name, with
/// its command as subtitle, launching that command.
pub open spec fn is_app_result(r: SearchResult, a: AppEntry, score: i64) -> bool {
    &&& r.id@ == "app:"@ + a.name@
    &&& r.title@ == a.name@
    &&& opt_view(r.subtitle) == Some(a.exec_line@)
    &&& opt_view(r.icon) == opt_view(a.icon)
    &&& r.score == score
    &&& (match r.action {
        SearchAction::LaunchApp { exec_line } => exec_line@ == a.exec_line@,
        _ => false,
    })
    &&& r.secondary_actions@.len() == 0
}

/// The results for `query`: every application with score 0, in list order, when the
/// trimmed query is empty; otherwise the matching applications by score, highest first,
/// equal scores in list order.
pub open spec fn app_results(apps: Seq<AppEntry>, query: Seq<char>, r: Seq<SearchResult>) -> bool {
    if trim(query).len() == 0 {
        r.len() == apps.len() && forall|k: int| 0 <= k < r.len() ==> is_app_result(#[trigger] r[k], apps[k], 0)
    } else {
        let hits = sort_by_score(app_hits(query, apps));
        r.len() == hits.len() && forall|k: int|
            0 <= k < r.len() ==> is_app_result(#[trigger] r[k], apps[hits[k].1 as int], hits[k].0)
    }
}

/// `r` shows application `a` with the given score: titled by its name, with `app:` and
/// the name as id, the command as subtitle, the application's icon, launching the
/// command, with no other action.
pub open spec fn shows_app(r: SearchResult, a: AppEntry, score: i64) -> bool {
    &&& r.score == score
    &&& r.title@ == a.name@
    &&& r.id@ == "app:"@ + a.name@
    &&& opt_view(r.subtitle) == Some(a.exec_line@)
    &&& opt_view(r.icon) == opt_view(a.icon)
    &&& (r.action matches SearchAction::LaunchApp { exec_line } && exec_line@ == a.exec_line@)
    &&& r.secondary_actions@.len() == 0
}

/// What the application search answers: for a blank query every application, in list
/// order, with score 0; otherwise one result per hit, in the order of the hits sorted by
/// score, each showing its application with the hit's score.
pub proof fn app_results_fields(apps: Seq<AppEntry>, query: Seq<char>, r: Seq<SearchResult>)
    requires
        app_results(apps, query, r),
    ensures
        trim(query).len() == 0 ==> r.len() == apps.len() && forall|k: int|
            0 <= k < r.len() ==> shows_app(#[trigger] r[k], apps[k], 0),
        trim(query).len() > 0 ==> r.len() == sort_by_score(app_hits(query, apps)).len() && forall|k: int|
            0 <= k < r.len() ==> shows_app(
                #[trigger] r[k],
                apps[sort_by_score(app_hits(query, apps))[k].1 as int],
                sort_by_score(app_hits(query, apps))[k].0,
            ),
{
    if trim(query).len() == 0 {
        assert forall|k: int| 0 <= k < r.len() implies shows_app(#[trigger] r[k], apps[k], 0) by {
            assert(is_app_result(r[k], apps[k], 0));
        }
    } else {
        let src = sort_by_score(app_hits(query, apps));
        assert forall|k: int| 0 <= k < r.len() implies shows_app(#[trigger] r[k], apps[src[k].1 as int], src[k].0) by {
            assert(is_app_result(r[k], apps[src[k].1 as int], src[k].0));
        }
    }
}

/// Searches the installed applications.
pub struct AppsProvider {
    apps: Vec<AppEntry>,
}

fn clone_opt_string(o: &Option<String>) -> (r: Option<String>)
    ensures
        opt_view(r) == opt_view(*o),
{
    match o {
        Some(s) => Some(s.clone()),
        None => None,
    }
}

/// The result for an application with the given score.
fn app_result(a: &AppEntry, score: i64) -> (r: SearchResult)
    ensures
        is_app_result(r, *a, score),
{
    let mut id = chars_of("app:");
    let name = chars_of(a.name.as_str());
    extend_chars(&mut id, &name);
    SearchResult {
        id: string_from_chars(id.as_slice()),
        title: a.name.clone(),
        subtitle: Some(a.exec_line.clone()),
        icon: clone_opt_string(&a.icon),
        score,
        action: SearchAction::LaunchApp { exec_line: a.exec_line.clone() },
        secondary_actions: Vec::new(),
    }
}

impl AppsProvider {
    #[verifier::type_invariant]
    spec fn fits(self) -> bool {
        apps_fit_matcher(self.apps@)
    }

    /// The applications searched.
    pub closed spec fn apps(&self) -> Seq<AppEntry> {
        self.apps@
    }

    /// A provider over the application list (as built by `collect_applications`).
    pub fn new(apps: Vec<AppEntry>) -> (r: Self)
        requires
            apps_fit_matcher(apps@),
        ensures
            r.apps() == apps@,
    {
        AppsProvider { apps }
    }

    /// Replaces the application list with a freshly scanned one.
    pub fn reload(&mut self, apps: Vec<AppEntry>)
        requires
            apps_fit_matcher(apps@),
        ensures
            final(self).apps() == apps@,
    {
        self.apps = apps;
    }

    fn all_results(&self) -> (r: Vec<SearchResult>)
        ensures
            r@.len() == self.apps().len(),
            forall|k: int| 0 <= k < r@.len() ==> is_app_result(#[trigger] r@[k], self.apps()[k], 0),
    {
        let mut out: Vec<SearchResult> = Vec::new();
        let mut i: usize = 0;
        while i < self.apps.len()
            invariant
                i <= self.apps@.len(),
                out@.len() == i,
                forall|k: int| 0 <= k < i ==> is_app_result(#[trigger] out@[k], self.apps@[k], 0),
            decreases self.apps@.len() - i,
        {
            out.push(app_result(&self.apps[i], 0));
            i = i + 1;
        }
        out
    }
}

impl AppsProvider {
    /// The provider's name.
    pub fn id(&self) -> (r: &'static str)
        ensures
            r@ == "apps"@,
    {
        "apps"
    }

    /// Added to the score of each application result.
    pub fn priority_boost(&self) -> (r: i64)
        ensures
            r == 50,
    {
        50
    }

    /// Whether [`AppsProvider::matches`] takes `query`: a blank query always, any other
    /// when the matcher scores it without overflow.
    pub fn can_match(&self, query: &str) -> (r: bool)
        ensures
            r == (trim(query@).len() > 0 ==> matcher_takes(query@)),
    {
        let trimmed = trim_str(query);
        trimmed.as_str().is_empty() || query_fits_matcher(query)
    }

    /// The applications that match `query` (see [`app_results`]).
    pub fn matches(&self, query: &str) -> (r: Vec<SearchResult>)
        requires
            trim(query@).len() > 0 ==> matcher_takes(query@),
        ensures
            app_results(self.apps(), query@, r@),
            ordered_results(r@),
    {
        proof {
            use_type_invariant(self);
        }
        let trimmed = trim_str(query);
        if trimmed.as_str().is_empty() {
            return self.all_results();
        }
        let n = self.apps.len();
        let mut names: Vec<&str> = Vec::new();
        let mut cmds: Vec<&str> = Vec::new();
        let mut i: usize = 0;
        while i < n
            invariant
                n == self.apps@.len(),
                apps_fit_matcher(self.apps@),
                matcher_takes(query@),
                i <= n,
                names@.len() == i,
                cmds@.len() == i,
                forall|k: int| 0 <= k < i ==> (#[trigger] names@[k])@ == self.apps@[k].name@,
                forall|k: int| 0 <= k < i ==> (#[trigger] cmds@[k])@ == self.apps@[k].exec_line@,
            decreases n - i,
        {
            names.push(self.apps[i].name.as_str());
            cmds.push(self.apps[i].exec_line.as_str());
            i = i + 1;
        }
        let name_scores = default_scores(query, &names);
        let cmd_scores = default_scores(query, &cmds);
        let mut hits: Vec<(i64, usize)> = Vec::new();
        let mut i: usize = 0;
        assert(self.apps@.take(0) =~= Seq::<AppEntry>::empty());
        while i < n
            invariant
                n == self.apps@.len(),
                i <= n,
                name_scores@.len() == n,
                cmd_scores@.len() == n,
                forall|k: int|
                    0 <= k < n ==> #[trigger] name_scores@[k] == pattern_score(query@, self.apps@[k].name@, false),
                forall|k: int|
                    0 <= k < n ==> #[trigger] cmd_scores@[k] == pattern_score(
                        query@,
                        self.apps@[k].exec_line@,
                        false,
                    ),
                hits@ == app_hits(query@, self.apps@.take(i as int)),
            decreases n - i,
        {
            assert(self.apps@.take(i + 1).drop_last() =~= self.apps@.take(i as int));
            assert(self.apps@.take(i + 1).last() == self.apps@[i as int]);
            match name_scores[i] {
                Some(s) => {
                    hits.push((s as i64, i));
                },
                None => match cmd_scores[i] {
                    Some(e) => {
                        hits.push(((e as i64 * 7) / 10, i));
                    },
                    None => {},
                },
            }
            i = i + 1;
        }
        assert(self.apps@.take(n as int) =~= self.apps@);
        let count = hits.len();
        let ghost hv = hits@;
        let ranked = top_by_score(hits, count);
        proof {
            crate::ranking::lemma_sort_by_score_len(hv);
            lemma_app_hits_in_range(query@, self.apps@);
        }
        let ghost sorted = sort_by_score(hv);
        assert(ranked@ == sorted);
        let mut out: Vec<SearchResult> = Vec::new();
        let mut k: usize = 0;
        while k < ranked.len()
            invariant
                ranked@ == sorted,
                sorted == sort_by_score(app_hits(query@, self.apps@)),
                forall|m: int| 0 <= m < sorted.len() ==> (#[trigger] sorted[m]).1 < self.apps@.len(),
                k <= ranked@.len(),
                out@.len() == k,
                forall|m: int|
                    0 <= m < k ==> is_app_result(#[trigger] out@[m], self.apps@[sorted[m].1 as int], sorted[m].0),
            decreases ranked@.len() - k,
        {
            let (score, idx) = ranked[k];
            out.push(app_result(&self.apps[idx], score));
            k = k + 1;
        }
        proof {
            sort_by_score_is_ordered(hv);
            assert forall|a: int, b: int| 0 <= a < b < out@.len() implies #[trigger] out@[b].score
                <= #[trigger] out@[a].score by {
                assert(sorted[b].0 <= sorted[a].0);
            }
        }
        out
    }
}

/// How an application is scored for a query: the match score of its name when the name
/// matches; otherwise seven tenths (rounded down) of the match score of its command when
/// that matches; otherwise it is not a hit.
pub proof fn app_score_name_then_command(query: Seq<char>, a: AppEntry)
    ensures
        app_score(query, a) == (match pattern_score(query, a.name@, false) {
            Some(s) => Some(s as i64),
            None => match pattern_score(query, a.exec_line@, false) {
                Some(e) => Some(((7 * e) / 10) as i64),
                None => None,
            },
        }),
{
}

/// The hits of a query are exactly the scored applications, each paired with its
/// position, in list order: `(s, k)` is a hit when application `k` scores `s`, and only then.
pub proof fn app_hits_are_scored_apps(query: Seq<char>, apps: Seq<AppEntry>)
    requires
        apps.len() <= usize::MAX,
    ensures
        forall|s: i64, k: usize|
            #[trigger] app_hits(query, apps).contains((s, k)) <==> (k < apps.len() && app_score(
                query,
                apps[k as int],
            ) == Some(s)),
        forall|i: int, j: int|
            0 <= i < j < app_hits(query, apps).len() ==> (#[trigger] app_hits(query, apps)[i]).1 < (#[trigger] app_hits(
                query,
                apps,
            )[j]).1,
    decreases apps.len(),
{
    if apps.len() > 0 {
        let init = apps.drop_last();
        app_hits_are_scored_apps(query, init);
        let h = app_hits(query, init);
        let n = (apps.len() - 1) as usize;
        assert forall|i: int, j: int|
            0 <= i < j < app_hits(query, apps).len() implies (#[trigger] app_hits(query, apps)[i]).1 < (#[trigger] app_hits(
                query,
                apps,
            )[j]).1 by {
            if j < h.len() {
                assert(app_hits(query, apps)[i] == h[i] && app_hits(query, apps)[j] == h[j]);
            } else {
                assert(h.contains((h[i].0, h[i].1)));
                assert(app_hits(query, apps)[i] == h[i]);
                match app_score(query, apps.last()) {
                    Some(t) => {
                        assert(app_hits(query, apps) == h.push((t, n)));
                    },
                    None => {
                        assert(app_hits(query, apps) == h);
                    },
                }
            }
        }
        assert forall|s: i64, k: usize|
            #[trigger] app_hits(query, apps).contains((s, k)) <==> (k < apps.len() && app_score(
                query,
                apps[k as int],
            ) == Some(s)) by {
            assert(h.contains((s, k)) <==> (k < init.len() && app_score(query, init[k as int]) == Some(s)));
            if k < init.len() {
                assert(init[k as int] == apps[k as int]);
            }
            match app_score(query, apps.last()) {
                Some(t) => {
                    let hh = h.push((t, n));
                    assert(app_hits(query, apps) == hh);
                    if hh.contains((s, k)) {
                        let w = choose|w: int| 0 <= w < hh.len() && hh[w] == (s, k);
                        if w < h.len() {
                            assert(h[w] == (s, k));
                        }
                    }
                    if h.contains((s, k)) {
                        let w = choose|w: int| 0 <= w < h.len() && h[w] == (s, k);
                        assert(hh[w] == (s, k));
                    }
                    if k == n && t == s {
                        assert(hh[h.len() as int] == (s, k));
                    }
                },
                None => {
                    assert(app_hits(query, apps) == h);
                },
            }
        }
    }
}

/// Every hit points at an application of the list.
proof fn lemma_app_hits_in_range(query: Seq<char>, apps: Seq<AppEntry>)
    requires
        apps.len() <= usize::MAX,
    ensures
        forall|m: int|
            0 <= m < sort_by_score(app_hits(query, apps)).len() ==> (#[trigger] sort_by_score(
                app_hits(query, apps),
            )[m]).1 < apps.len(),
{
    let hits = app_hits(query, apps);
    lemma_app_hits_in_range_raw(query, apps);
    assert forall|m: int|
        0 <= m < sort_by_score(hits).len() implies (#[trigger] sort_by_score(hits)[m]).1 < apps.len() by {
        crate::ranking::lemma_sort_by_score_contains(hits, sort_by_score(hits)[m]);
        assert(sort_by_score(hits).contains(sort_by_score(hits)[m]));
        let w = choose|w: int| 0 <= w < hits.len() && hits[w] == sort_by_score(hits)[m];
        assert(hits[w].1 < apps.len());
    }
}

proof fn lemma_app_hits_in_range_raw(query: Seq<char>, apps: Seq<AppEntry>)
    requires
        apps.len() <= usize::MAX,
    ensures
        forall|m: int| 0 <= m < app_hits(query, apps).len() ==> (#[trigger] app_hits(query, apps)[m]).1 < apps.len(),
    decreases apps.len(),
{
    if apps.len() > 0 {
        lemma_app_hits_in_range_raw(query, apps.drop_last());
        let h = app_hits(query, apps.drop_last());
        assert forall|m: int| 0 <= m < app_hits(query, apps).len() implies (#[trigger] app_hits(query, apps)[m]).1 < apps.len() by {
            if m < h.len() {
                assert(app_hits(query, apps)[m] == h[m]);
            }
        }
    }
}

} // verus!
