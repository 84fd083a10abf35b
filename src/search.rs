//! The search engine: per-entry exact or fuzzy matching of walked entries,
//! then a stable ranking by score, cut to the requested length.
use nucleo_matcher::pattern::{AtomKind, CaseMatching, Normalization, Pattern};
use nucleo_matcher::{Matcher, Utf32Str};
use vstd::prelude::*;
use vstd::seq_lib::{to_multiset_build, to_multiset_insert};
use crate::text::{
    anchor, contains_str, is_infix, is_path_query, lower_of, lowercase, split_anchor,
};

verus! {

#[verifier::external_type_specification]
#[verifier::external_body]
pub struct ExMatcher(nucleo_matcher::Matcher);

#[verifier::external_type_specification]
#[verifier::external_body]
pub struct ExPattern(nucleo_matcher::pattern::Pattern);

/// Score given to every exact-mode match.
pub const EXACT_SCORE: u32 = 1000;

/// The longest fuzzy query (in characters) the scorer takes safely. Each
/// atom's score is a `u16` summed without overflow checks: the first matched
/// character adds at most 36 and each further one at most 26, so a needle of
/// up to 2048 characters stays below `u16::MAX` (36 + 26 * 2047 = 53258), and
/// the at most 1024 atoms of such a query cannot overflow their `u32` sum.
pub const MAX_FUZZY_QUERY_LEN: usize = 2048;

/// The fuzzy score of `target` under the pattern compiled from `query`
/// (smart case, smart normalization, fuzzy atoms); `None` when it does not match.
pub uninterp spec fn fuzzy_score_of(query: Seq<char>, target: Seq<char>) -> Option<u32>;

/// One filesystem entry met by the directory walk.
pub struct Entry {
    /// Full path of the entry, as the platform's raw bytes.
    pub path: Vec<u8>,
    /// Path relative to the search root; empty for the root itself.
    pub display_path: String,
    /// Last component of the path, if it has one.
    pub file_name: Option<String>,
    /// Whether the entry was a directory when it was walked.
    pub is_dir: bool,
}

pub ghost struct EntryView {
    pub path: Seq<u8>,
    pub display_path: Seq<char>,
    pub file_name: Option<Seq<char>>,
    pub is_dir: bool,
}

impl View for Entry {
    type V = EntryView;

    open spec fn view(&self) -> EntryView {
        EntryView {
            path: self.path@,
            display_path: self.display_path@,
            file_name: match self.file_name {
                Some(n) => Some(n@),
                None => None,
            },
            is_dir: self.is_dir,
        }
    }
}

/// One ranked hit.
#[derive(Debug, Clone)]
pub struct SearchResult {
    /// Full path of the entry, as the platform's raw bytes.
    pub path: Vec<u8>,
    pub display_path: String,
    pub score: u32,
    pub is_dir: bool,
}

pub ghost struct ResultView {
    pub path: Seq<u8>,
    pub display_path: Seq<char>,
    pub score: u32,
    pub is_dir: bool,
}

impl View for SearchResult {
    type V = ResultView;

    open spec fn view(&self) -> ResultView {
        ResultView {
            path: self.path@,
            display_path: self.display_path@,
            score: self.score,
            is_dir: self.is_dir,
        }
    }
}

pub open spec fn entry_views(es: Seq<Entry>) -> Seq<EntryView> {
    es.map_values(|e: Entry| e@)
}

pub open spec fn result_views(rs: Seq<SearchResult>) -> Seq<ResultView> {
    rs.map_values(|r: SearchResult| r@)
}

/// Exact mode: the file name equals the query, ignoring case; for a path
/// query the display path must also contain the whole query and the file
/// name must equal the anchor.
pub open spec fn exact_match(q: Seq<char>, name: Seq<char>, display_path: Seq<char>) -> bool {
    if is_path_query(q) {
        is_infix(lower_of(q), lower_of(display_path)) && lower_of(name) == lower_of(anchor(q))
    } else {
        lower_of(name) == lower_of(q)
    }
}

/// Fuzzy mode: score the display path (path query) or the file name; a path
/// query then also needs the anchor inside the file name, ignoring case.
pub open spec fn fuzzy_match(q: Seq<char>, name: Seq<char>, display_path: Seq<char>) -> Option<
    u32,
> {
    let target = if is_path_query(q) {
        display_path
    } else {
        name
    };
    match fuzzy_score_of(q, target) {
        None => None,
        Some(s) => if is_path_query(q) && !is_infix(lower_of(anchor(q)), lower_of(name)) {
            None
        } else {
            Some(s)
        },
    }
}

/// The score of entry `e` for query `q`, or `None` when it is not a hit.
pub open spec fn hit_score(q: Seq<char>, e: EntryView, dir_only: bool, exact: bool) -> Option<
    u32,
> {
    if dir_only && !e.is_dir {
        None
    } else {
        match e.file_name {
            None => None,
            Some(name) => if e.display_path.len() == 0 {
                None
            } else if exact {
                if exact_match(q, name, e.display_path) {
                    Some(EXACT_SCORE)
                } else {
                    None
                }
            } else {
                fuzzy_match(q, name, e.display_path)
            },
        }
    }
}

pub open spec fn result_of(e: EntryView, score: u32) -> ResultView {
    ResultView { path: e.path, display_path: e.display_path, score, is_dir: e.is_dir }
}

/// The hits among `es`, in walk order.
pub open spec fn hits(q: Seq<char>, es: Seq<EntryView>, dir_only: bool, exact: bool) -> Seq<
    ResultView,
>
    decreases es.len(),
{
    if es.len() == 0 {
        seq![]
    } else {
        let prev = hits(q, es.drop_last(), dir_only, exact);
        match hit_score(q, es.last(), dir_only, exact) {
            Some(s) => prev.push(result_of(es.last(), s)),
            None => prev,
        }
    }
}

/// Where a result with score `score` goes into `s`: after the last element,
/// counted from the end, whose score is at least `score`.
pub open spec fn ins_pos(s: Seq<ResultView>, score: u32) -> int
    decreases s.len(),
{
    if s.len() == 0 {
        0
    } else if s.last().score >= score {
        s.len() as int
    } else {
        ins_pos(s.drop_last(), score)
    }
}

pub open spec fn insert_desc(s: Seq<ResultView>, x: ResultView) -> Seq<ResultView> {
    s.insert(ins_pos(s, x.score), x)
}

/// Stable sort by descending score: equal scores keep their order in `s`.
pub open spec fn sort_desc(s: Seq<ResultView>) -> Seq<ResultView>
    decreases s.len(),
{
    if s.len() == 0 {
        s
    } else {
        insert_desc(sort_desc(s.drop_last()), s.last())
    }
}

pub open spec fn take(s: Seq<ResultView>, n: int) -> Seq<ResultView> {
    if n >= s.len() {
        s
    } else {
        s.subrange(0, n)
    }
}

/// What a search returns: nothing for an empty query, else the hits ranked
/// by descending score (stable) and cut to `max_results`.
pub open spec fn search_spec(
    q: Seq<char>,
    es: Seq<EntryView>,
    max_results: int,
    dir_only: bool,
    exact: bool,
) -> Seq<ResultView> {
    if q.len() == 0 {
        seq![]
    } else {
        take(sort_desc(hits(q, es, dir_only, exact)), max_results)
    }
}

/// An entry whose names the scorer can take (it panics past `u32::MAX` characters).
pub open spec fn entry_fits(e: EntryView) -> bool {
    &&& e.display_path.len() <= u32::MAX
    &&& match e.file_name {
        Some(n) => n.len() <= u32::MAX,
        None => true,
    }
}

pub open spec fn entries_fit(es: Seq<EntryView>) -> bool {
    forall|i: int| 0 <= i < es.len() ==> entry_fits(#[trigger] es[i])
}

/// A fuzzy pattern together with the query it was compiled from.
pub struct FuzzyPattern {
    text: String,
    pattern: Pattern,
}

impl FuzzyPattern {
    pub closed spec fn text(&self) -> Seq<char> {
        self.text@
    }
}

/// Relies on `nucleo_matcher::pattern::Pattern::new`: compiles `query` with
/// smart case, smart normalization and fuzzy atoms.
#[verifier::external_body]
fn compile_fuzzy(query: &str) -> (p: FuzzyPattern)
    ensures
        p.text() == query@,
{
    FuzzyPattern {
        text: query.to_string(),
        pattern: Pattern::new(query, CaseMatching::Smart, Normalization::Smart, AtomKind::Fuzzy),
    }
}

/// Relies on `nucleo_matcher::pattern::Pattern::score`: the score depends on
/// the compiled query and the target alone. Each atom overwrites the
/// matcher's case and normalization settings; its other settings are the
/// defaults, since every matcher here comes from `new_matcher` and the field
/// that holds it is private. The bounds keep nucleo's codepoint assertion
/// and its unchecked score sums clear of panics.
#[verifier::external_body]
fn score_target(p: &FuzzyPattern, target: &str, matcher: &mut Matcher) -> (r: Option<u32>)
    requires
        target@.len() <= u32::MAX,
        p.text().len() <= MAX_FUZZY_QUERY_LEN,
    ensures
        r == fuzzy_score_of(p.text(), target@),
{
    let mut buf = Vec::new();
    p.pattern.score(Utf32Str::new(target, &mut buf), matcher)
}

/// Relies on `nucleo_matcher::Matcher::new` with the default configuration.
#[verifier::external_body]
fn new_matcher() -> (m: Matcher) {
    Matcher::new(nucleo_matcher::Config::DEFAULT)
}

/// The matching facts of one query, computed once per search.
pub struct Query {
    pub raw: String,
    pub is_path_query: bool,
    pub last_segment: String,
    pub raw_lower: String,
    pub last_segment_lower: String,
}

impl Query {
    pub open spec fn wf(&self) -> bool {
        &&& self.is_path_query == is_path_query(self.raw@)
        &&& self.last_segment@ == anchor(self.raw@)
        &&& self.raw_lower@ == lower_of(self.raw@)
        &&& self.last_segment_lower@ == lower_of(anchor(self.raw@))
    }

    pub fn parse(raw: &str) -> (q: Query)
        ensures
            q.raw@ == raw@,
            q.wf(),
    {
        let (is_path, seg) = split_anchor(raw);
        let raw_lower = lowercase(raw);
        let seg_lower = lowercase(seg.as_str());
        Query {
            raw: raw.to_owned(),
            is_path_query: is_path,
            last_segment: seg,
            raw_lower,
            last_segment_lower: seg_lower,
        }
    }
}

/// The two matching policies; fuzzy carries its compiled pattern.
pub enum Matching {
    Exact,
    Fuzzy(FuzzyPattern),
}

impl Matching {
    pub open spec fn fits(&self, q: Seq<char>, exact: bool) -> bool {
        match self {
            Matching::Exact => exact,
            Matching::Fuzzy(p) => !exact && p.text() == q && q.len() <= MAX_FUZZY_QUERY_LEN,
        }
    }
}

/// The search engine; it owns the scorer's scratch state, so a search takes
/// it exclusively.
pub struct FileSearcher {
    matcher: Matcher,
}

impl FileSearcher {
    pub fn new() -> (s: FileSearcher) {
        FileSearcher { matcher: new_matcher() }
    }

    /// Decides whether one entry is a hit, and with which score.
    fn match_entry(&mut self, q: &Query, matching: &Matching, e: &Entry, dir_only: bool) -> (r:
        Option<u32>)
        requires
            q.wf(),
            matching.fits(q.raw@, matching is Exact),
            entry_fits(e@),
        ensures
            r == hit_score(q.raw@, e@, dir_only, matching is Exact),
    {
        if dir_only && !e.is_dir {
            return None;
        }
        let name = match &e.file_name {
            Some(n) => n,
            None => return None,
        };
        if e.display_path.as_str().is_empty() {
            return None;
        }
        let name_lower = lowercase(name.as_str());
        match matching {
            Matching::Exact => {
                let ok = if q.is_path_query {
                    let dp_lower = lowercase(e.display_path.as_str());
                    contains_str(dp_lower.as_str(), q.raw_lower.as_str()) && name_lower
                        == q.last_segment_lower
                } else {
                    name_lower == q.raw_lower
                };
                if ok {
                    Some(EXACT_SCORE)
                } else {
                    None
                }
            },
            Matching::Fuzzy(p) => {
                let target = if q.is_path_query {
                    &e.display_path
                } else {
                    name
                };
                match score_target(p, target.as_str(), &mut self.matcher) {
                    None => None,
                    Some(s) => {
                        if q.is_path_query && !contains_str(
                            name_lower.as_str(),
                            q.last_segment_lower.as_str(),
                        ) {
                            None
                        } else {
                            Some(s)
                        }
                    },
                }
            },
        }
    }

    /// Ranks the hits among `entries` (the walk of the search root, in walk
    /// order) for `query`: nothing for an empty query, else every hit in
    /// descending score, equal scores in walk order, at most `max_results`.
    pub fn search(
        &mut self,
        entries: &Vec<Entry>,
        query: &str,
        max_results: usize,
        dir_only: bool,
        exact: bool,
    ) -> (r: Vec<SearchResult>)
        requires
            entries_fit(entry_views(entries@)),
            exact || query@.len() <= MAX_FUZZY_QUERY_LEN,
        ensures
            result_views(r@) == search_spec(
                query@,
                entry_views(entries@),
                max_results as int,
                dir_only,
                exact,
            ),
            r@.len() <= max_results,
    {
        if query.is_empty() {
            return Vec::new();
        }
        let q = Query::parse(query);
        let matching = if exact {
            Matching::Exact
        } else {
            Matching::Fuzzy(compile_fuzzy(query))
        };
        let ghost es = entry_views(entries@);
        let mut results: Vec<SearchResult> = Vec::new();
        let mut i: usize = 0;
        while i < entries.len()
            invariant
                q.wf(),
                q.raw@ == query@,
                matching.fits(query@, exact),
                matching is Exact <==> exact,
                es == entry_views(entries@),
                entries_fit(es),
                i <= entries@.len(),
                result_views(results@) == sort_desc(
                    hits(query@, es.subrange(0, i as int), dir_only, exact),
                ),
            decreases entries@.len() - i,
        {
            let e = &entries[i];
            proof {
                assert(es[i as int] == e@);
                assert(es.subrange(0, i + 1).drop_last() =~= es.subrange(0, i as int));
                assert(es.subrange(0, i + 1).last() == es[i as int]);
            }
            let hit = self.match_entry(&q, &matching, e, dir_only);
            if let Some(score) = hit {
                let res = SearchResult {
                    path: copy_bytes(&e.path),
                    display_path: e.display_path.clone(),
                    score,
                    is_dir: e.is_dir,
                };
                assert(res@ == result_of(es[i as int], score));
                let ghost prev = hits(query@, es.subrange(0, i as int), dir_only, exact);
                assert(prev.push(res@).drop_last() =~= prev);
                insert_ranked(&mut results, res);
            }
            i = i + 1;
        }
        assert(es.subrange(0, i as int) =~= es);
        results.truncate(max_results);
        results
    }
}

fn copy_bytes(b: &Vec<u8>) -> (r: Vec<u8>)
    ensures
        r@ == b@,
{
    let mut r: Vec<u8> = Vec::new();
    let mut i: usize = 0;
    while i < b.len()
        invariant
            i <= b@.len(),
            r@ == b@.subrange(0, i as int),
        decreases b@.len() - i,
    {
        r.push(b[i]);
        i = i + 1;
        assert(r@ =~= b@.subrange(0, i as int));
    }
    assert(b@.subrange(0, i as int) =~= b@);
    r
}

/// Inserts `x` into ranked `v` after every element, counted from the end,
/// whose score is at least `x.score`.
fn insert_ranked(v: &mut Vec<SearchResult>, x: SearchResult)
    ensures
        result_views(final(v)@) == insert_desc(result_views(old(v)@), x@),
{
    let ghost s = result_views(v@);
    let mut j: usize = v.len();
    assert(s.subrange(0, j as int) =~= s);
    while j > 0 && v[j - 1].score < x.score
        invariant
            s == result_views(v@),
            j <= v@.len(),
            ins_pos(s, x.score) == ins_pos(s.subrange(0, j as int), x.score),
        decreases j,
    {
        assert(s.subrange(0, j as int).drop_last() =~= s.subrange(0, j - 1));
        j = j - 1;
    }
    proof {
        if j > 0 {
            assert(s.subrange(0, j as int).last() == s[j - 1]);
        }
    }
    let ghost x_view = x@;
    v.insert(j, x);
    assert(result_views(v@) =~= s.insert(j as int, x_view));
}

/// Scores never increase along `s`.
pub open spec fn is_ranked(s: Seq<ResultView>) -> bool {
    forall|i: int, j: int| 0 <= i < j < s.len() ==> s[i].score >= s[j].score
}

pub proof fn lemma_ins_pos(s: Seq<ResultView>, score: u32)
    ensures
        0 <= ins_pos(s, score) <= s.len(),
        forall|k: int| ins_pos(s, score) <= k < s.len() ==> s[k].score < score,
        is_ranked(s) ==> forall|k: int| 0 <= k < ins_pos(s, score) ==> s[k].score >= score,
    decreases s.len(),
{
    if s.len() > 0 && s.last().score < score {
        let t = s.drop_last();
        lemma_ins_pos(t, score);
        assert forall|k: int| ins_pos(s, score) <= k < s.len() implies s[k].score < score by {
            if k < s.len() - 1 {
                assert(t[k] == s[k]);
            }
        }
        if is_ranked(s) {
            assert(is_ranked(t));
            assert forall|k: int| 0 <= k < ins_pos(s, score) implies s[k].score >= score by {
                assert(t[k] == s[k]);
            }
        }
    } else if s.len() > 0 && is_ranked(s) {
        assert forall|k: int| 0 <= k < ins_pos(s, score) implies s[k].score >= score by {
            if k < s.len() - 1 {
                assert(s[k].score >= s[s.len() - 1].score);
            }
        }
    }
}

pub proof fn lemma_insert_desc(s: Seq<ResultView>, x: ResultView)
    ensures
        insert_desc(s, x).len() == s.len() + 1,
        is_ranked(s) ==> is_ranked(insert_desc(s, x)),
        forall|k: int|
            0 <= k < s.len() + 1 ==> #[trigger] insert_desc(s, x)[k] == x || s.contains(
                insert_desc(s, x)[k],
            ),
{
    let p = ins_pos(s, x.score);
    lemma_ins_pos(s, x.score);
    s.insert_ensures(p, x);
    let t = insert_desc(s, x);
    assert forall|k: int| 0 <= k < s.len() + 1 implies #[trigger] t[k] == x || s.contains(t[k]) by {
        if k < p {
            assert(t[k] == s[k]);
        } else if k > p {
            assert(t[(k - 1) + 1] == s[k - 1]);
        }
    }
    if is_ranked(s) {
        assert forall|i: int, j: int| 0 <= i < j < t.len() implies t[i].score >= t[j].score by {
            if i < p {
                assert(t[i] == s[i]);
                if j > p {
                    assert(t[(j - 1) + 1] == s[j - 1]);
                }
            } else if i == p {
                assert(t[(j - 1) + 1] == s[j - 1]);
            } else {
                assert(t[(i - 1) + 1] == s[i - 1]);
                assert(t[(j - 1) + 1] == s[j - 1]);
            }
        }
    }
}

pub proof fn lemma_sort_desc(s: Seq<ResultView>)
    ensures
        sort_desc(s).len() == s.len(),
        is_ranked(sort_desc(s)),
        forall|k: int| 0 <= k < s.len() ==> s.contains(#[trigger] sort_desc(s)[k]),
    decreases s.len(),
{
    if s.len() > 0 {
        let t = s.drop_last();
        lemma_sort_desc(t);
        lemma_insert_desc(sort_desc(t), s.last());
        assert forall|k: int| 0 <= k < s.len() implies s.contains(#[trigger] sort_desc(s)[k]) by {
            let r = sort_desc(s)[k];
            if r == s.last() {
                assert(s[s.len() - 1] == r);
            } else {
                assert(sort_desc(t).contains(r));
                let m = choose|m: int| 0 <= m < sort_desc(t).len() && sort_desc(t)[m] == r;
                assert(t.contains(sort_desc(t)[m]));
                let n = choose|n: int| 0 <= n < t.len() && t[n] == r;
                assert(s[n] == r);
            }
        }
    }
}

/// Every hit comes from one of the entries, with that entry's hit score.
pub proof fn lemma_hits_origin(q: Seq<char>, es: Seq<EntryView>, dir_only: bool, exact: bool)
    ensures
        forall|r: ResultView|
            #[trigger] hits(q, es, dir_only, exact).contains(r) ==> exists|k: int|
                0 <= k < es.len() && hit_score(q, es[k], dir_only, exact) == Some(r.score)
                    && r == result_of(es[k], r.score),
    decreases es.len(),
{
    if es.len() > 0 {
        let t = es.drop_last();
        lemma_hits_origin(q, t, dir_only, exact);
        let h = hits(q, es, dir_only, exact);
        assert forall|r: ResultView| #[trigger] h.contains(r) implies exists|k: int|
            0 <= k < es.len() && hit_score(q, es[k], dir_only, exact) == Some(r.score) && r
                == result_of(es[k], r.score) by {
            let prev = hits(q, t, dir_only, exact);
            let m = choose|m: int| 0 <= m < h.len() && h[m] == r;
            if m < prev.len() {
                assert(prev[m] == r);
                assert(prev.contains(r));
                let k = choose|k: int|
                    0 <= k < t.len() && hit_score(q, t[k], dir_only, exact) == Some(r.score) && r
                        == result_of(t[k], r.score);
                assert(es[k] == t[k]);
            } else {
                assert(es[es.len() - 1] == es.last());
            }
        }
    }
}

/// Every result of a search is a hit of one of the walked entries, with that
/// entry's path, display path, type and hit score.
pub proof fn law_results_are_hits(
    q: Seq<char>,
    es: Seq<EntryView>,
    max_results: int,
    dir_only: bool,
    exact: bool,
)
    requires
        max_results >= 0,
    ensures
        forall|j: int|
            0 <= j < search_spec(q, es, max_results, dir_only, exact).len() ==> exists|k: int|
                0 <= k < es.len() && hit_score(q, es[k], dir_only, exact) == Some(
                    (#[trigger] search_spec(q, es, max_results, dir_only, exact)[j]).score,
                ) && search_spec(q, es, max_results, dir_only, exact)[j] == result_of(
                    es[k],
                    search_spec(q, es, max_results, dir_only, exact)[j].score,
                ),
{
    if q.len() > 0 {
        let h = hits(q, es, dir_only, exact);
        lemma_sort_desc(h);
        lemma_hits_origin(q, es, dir_only, exact);
        let r = search_spec(q, es, max_results, dir_only, exact);
        assert forall|j: int| 0 <= j < r.len() implies exists|k: int|
            0 <= k < es.len() && hit_score(q, es[k], dir_only, exact) == Some((#[trigger] r[j]).score)
                && r[j] == result_of(es[k], r[j].score) by {
            assert(r[j] == sort_desc(h)[j]);
            assert(h.contains(sort_desc(h)[j]));
        }
    }
}

/// An empty query finds nothing, whatever the entries and flags.
pub proof fn law_empty_query(es: Seq<EntryView>, max_results: int, dir_only: bool, exact: bool)
    ensures
        search_spec(seq![], es, max_results, dir_only, exact).len() == 0,
{
}

/// A search returns at most `max_results` results.
pub proof fn law_bounded(
    q: Seq<char>,
    es: Seq<EntryView>,
    max_results: int,
    dir_only: bool,
    exact: bool,
)
    requires
        max_results >= 0,
    ensures
        search_spec(q, es, max_results, dir_only, exact).len() <= max_results,
{
}

/// Results come in non-increasing score order; in exact mode every score is
/// the exact-match score.
pub proof fn law_ranked(q: Seq<char>, es: Seq<EntryView>, max_results: int, dir_only: bool, exact: bool)
    requires
        max_results >= 0,
    ensures
        is_ranked(search_spec(q, es, max_results, dir_only, exact)),
        exact ==> forall|j: int|
            0 <= j < search_spec(q, es, max_results, dir_only, exact).len() ==> (#[trigger] search_spec(
                q,
                es,
                max_results,
                dir_only,
                exact,
            )[j]).score == EXACT_SCORE,
{
    if q.len() > 0 {
        lemma_sort_desc(hits(q, es, dir_only, exact));
        law_results_are_hits(q, es, max_results, dir_only, exact);
    }
}

/// Every result has a non-empty display path.
pub proof fn law_display_path_nonempty(
    q: Seq<char>,
    es: Seq<EntryView>,
    max_results: int,
    dir_only: bool,
    exact: bool,
)
    requires
        max_results >= 0,
    ensures
        forall|j: int|
            0 <= j < search_spec(q, es, max_results, dir_only, exact).len() ==> (#[trigger] search_spec(
                q,
                es,
                max_results,
                dir_only,
                exact,
            )[j]).display_path.len() > 0,
{
    law_results_are_hits(q, es, max_results, dir_only, exact);
}

/// With `dir_only`, every result is a directory.
pub proof fn law_dir_only(q: Seq<char>, es: Seq<EntryView>, max_results: int, exact: bool)
    requires
        max_results >= 0,
    ensures
        forall|j: int|
            0 <= j < search_spec(q, es, max_results, true, exact).len() ==> (#[trigger] search_spec(
                q,
                es,
                max_results,
                true,
                exact,
            )[j]).is_dir,
{
    law_results_are_hits(q, es, max_results, true, exact);
}

/// For a fuzzy path query, every result is an entry whose file name contains
/// the query's anchor, ignoring case.
pub proof fn law_anchor_in_name(q: Seq<char>, es: Seq<EntryView>, max_results: int, dir_only: bool)
    requires
        is_path_query(q),
        max_results >= 0,
    ensures
        forall|j: int|
            0 <= j < search_spec(q, es, max_results, dir_only, false).len() ==> exists|k: int|
                0 <= k < es.len() && es[k].path == (#[trigger] search_spec(
                    q,
                    es,
                    max_results,
                    dir_only,
                    false,
                )[j]).path && es[k].file_name is Some && is_infix(
                    lower_of(anchor(q)),
                    lower_of(es[k].file_name->0),
                ),
{
    law_results_are_hits(q, es, max_results, dir_only, false);
}

/// The predicate "has score `v`".
pub open spec fn score_is(v: u32) -> spec_fn(ResultView) -> bool {
    |r: ResultView| r.score == v
}

/// The elements of `s` with score `v`, in their order in `s`.
pub open spec fn with_score(s: Seq<ResultView>, v: u32) -> Seq<ResultView> {
    s.filter(score_is(v))
}

/// Ranking keeps every element of `s`, each as many times as it occurs.
pub proof fn lemma_sort_desc_permutes(s: Seq<ResultView>)
    ensures
        sort_desc(s).to_multiset() == s.to_multiset(),
    decreases s.len(),
{
    if s.len() > 0 {
        let t = s.drop_last();
        let u = sort_desc(t);
        lemma_sort_desc_permutes(t);
        lemma_ins_pos(u, s.last().score);
        to_multiset_insert(u, ins_pos(u, s.last().score), s.last());
        assert(t.push(s.last()) =~= s);
        to_multiset_build(t, s.last());
    }
}

/// Ranking is stable: the elements of each score keep their order in `s`.
pub proof fn lemma_sort_desc_stable(s: Seq<ResultView>, v: u32)
    ensures
        with_score(sort_desc(s), v) == with_score(s, v),
    decreases s.len(),
{
    if s.len() > 0 {
        let pred = score_is(v);
        let t = s.drop_last();
        let x = s.last();
        let u = sort_desc(t);
        let p = ins_pos(u, x.score);
        lemma_sort_desc_stable(t, v);
        lemma_ins_pos(u, x.score);
        assert(t.push(x) =~= s);
        t.lemma_filter_push(x, pred);
        let a = u.subrange(0, p);
        let b = u.subrange(p, u.len() as int);
        assert(u =~= a + b);
        assert(u.insert(p, x) =~= a.push(x) + b);
        Seq::filter_distributes_over_add(a, b, pred);
        Seq::filter_distributes_over_add(a.push(x), b, pred);
        a.lemma_filter_push(x, pred);
        if v == x.score {
            assert(b.all(|r: ResultView| !pred(r))) by {
                assert forall|i: int| 0 <= i < b.len() implies !pred(b[i]) by {
                    assert(b[i] == u[p + i]);
                }
            }
            b.lemma_all_neg_filter_empty(pred);
            assert(b.filter(pred) =~= Seq::<ResultView>::empty());
        }
    }
}

/// No hit is lost: each hit of the entries is among the results, unless the
/// results already hold `max_results` hits that score at least as high.
/// In particular, with `max_results == 1` the one result has the top score.
pub proof fn law_best_first(
    q: Seq<char>,
    es: Seq<EntryView>,
    max_results: int,
    dir_only: bool,
    exact: bool,
)
    requires
        q.len() > 0,
        max_results >= 0,
    ensures
        search_spec(q, es, max_results, dir_only, exact).len() == if max_results < hits(
            q,
            es,
            dir_only,
            exact,
        ).len() {
            max_results
        } else {
            hits(q, es, dir_only, exact).len() as int
        },
        forall|h: ResultView| #[trigger]
            hits(q, es, dir_only, exact).contains(h) ==> search_spec(
                q,
                es,
                max_results,
                dir_only,
                exact,
            ).contains(h) || (search_spec(q, es, max_results, dir_only, exact).len()
                == max_results && forall|j: int|
                0 <= j < max_results ==> (#[trigger] search_spec(
                    q,
                    es,
                    max_results,
                    dir_only,
                    exact,
                )[j]).score >= h.score),
{
    let hs = hits(q, es, dir_only, exact);
    let sorted = sort_desc(hs);
    let r = search_spec(q, es, max_results, dir_only, exact);
    lemma_sort_desc(hs);
    lemma_sort_desc_permutes(hs);
    hs.to_multiset_ensures();
    sorted.to_multiset_ensures();
    assert forall|h: ResultView| #[trigger] hs.contains(h) implies r.contains(h) || (r.len()
        == max_results && forall|j: int| 0 <= j < max_results ==> (#[trigger] r[j]).score
        >= h.score) by {
        assert(hs.to_multiset().count(h) > 0);
        assert(sorted.to_multiset().count(h) > 0);
        assert(sorted.contains(h));
        let m = choose|m: int| 0 <= m < sorted.len() && sorted[m] == h;
        if m < max_results {
            assert(r[m] == h);
        } else {
            assert forall|j: int| 0 <= j < max_results implies (#[trigger] r[j]).score
                >= h.score by {
                assert(r[j] == sorted[j]);
            }
        }
    }
}

/// Results of equal score come in walk order: for each score, the results
/// with that score are the first hits with that score, in the order the
/// walk met them.
pub proof fn law_stable(
    q: Seq<char>,
    es: Seq<EntryView>,
    max_results: int,
    dir_only: bool,
    exact: bool,
    v: u32,
)
    requires
        q.len() > 0,
        max_results >= 0,
    ensures
        with_score(search_spec(q, es, max_results, dir_only, exact), v).len() <= with_score(
            hits(q, es, dir_only, exact),
            v,
        ).len(),
        with_score(search_spec(q, es, max_results, dir_only, exact), v) == with_score(
            hits(q, es, dir_only, exact),
            v,
        ).subrange(0, with_score(search_spec(q, es, max_results, dir_only, exact), v).len() as int),
{
    let hs = hits(q, es, dir_only, exact);
    let sorted = sort_desc(hs);
    let pred = score_is(v);
    lemma_sort_desc_stable(hs, v);
    lemma_sort_desc(hs);
    if max_results < sorted.len() {
        let a = sorted.subrange(0, max_results);
        let b = sorted.subrange(max_results, sorted.len() as int);
        assert(sorted =~= a + b);
        Seq::filter_distributes_over_add(a, b, pred);
        assert(a.filter(pred) =~= (a.filter(pred) + b.filter(pred)).subrange(
            0,
            a.filter(pred).len() as int,
        ));
    } else {
        assert(with_score(hs, v) =~= with_score(hs, v).subrange(0, with_score(hs, v).len() as int));
    }
}

} // verus!
