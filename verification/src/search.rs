//! Fuzzy search over a mapping set.
//!
//! A query is scored against both the source text and the target text of
//! every entry, in scan order. Scanning stops once more than `limit` raw
//! candidates have been collected, so on large sets the outcome is an
//! approximate top-N, not a global one — a deliberate latency/quality
//! trade-off. Candidates are then sorted by descending score (stably, so
//! equal scores keep scan order), deduplicated by their (source, target)
//! pair keeping the first — highest-scoring — occurrence, and cut to
//! `limit` entries.
use vstd::prelude::*;

use fuzzy_matcher::FuzzyMatcher;

use crate::store::MappingSet;
use crate::store::MappingStore;

verus! {

use crate::store::EntryModel;

/// The reference cap on interactive search results.
pub const DEFAULT_SEARCH_LIMIT: usize = 10;

/// One search hit: a mapping's source text, its target text, and the score
/// of whichever side matched.
#[derive(Debug, PartialEq)]
pub struct SearchResult {
    pub source: String,
    pub target: String,
    pub score: i64,
}

/// Mathematical model of a [`SearchResult`].
pub ghost struct ResultModel {
    pub source: Seq<char>,
    pub target: Seq<char>,
    pub score: int,
}

impl View for SearchResult {
    type V = ResultModel;

    open spec fn view(&self) -> ResultModel {
        ResultModel { source: self.source@, target: self.target@, score: self.score as int }
    }
}

impl DeepView for SearchResult {
    type V = ResultModel;

    open spec fn deep_view(&self) -> ResultModel {
        self@
    }
}

/// What fuzzy_matcher's skim scorer, in its default configuration, makes of
/// a choice string and a pattern: no value when the pattern is not a fuzzy
/// subsequence of the choice, otherwise the alignment's score. A function of
/// the two strings alone.
pub uninterp spec fn skim_score(choice: Seq<char>, pattern: Seq<char>) -> Option<i64>;

/// Relies on fuzzy_matcher's `SkimMatcherV2::fuzzy_match` with the default
/// configuration: the outcome depends on the choice and pattern alone.
#[verifier::external_body]
fn fuzzy_score(choice: &str, pattern: &str) -> (r: Option<i64>)
    ensures
        r == skim_score(choice@, pattern@),
{
    fuzzy_matcher::skim::SkimMatcherV2::default().fuzzy_match(choice, pattern)
}

/// The raw candidates one entry contributes: a hit for its source text, then
/// a hit for its target text, each only when its side matches the query.
pub open spec fn entry_hits(e: EntryModel, q: Seq<char>) -> Seq<ResultModel> {
    let source_hit = match skim_score(e.key, q) {
        Some(s) => seq![ResultModel { source: e.key, target: e.mapping.value, score: s as int }],
        None => seq![],
    };
    let target_hit = match skim_score(e.mapping.value, q) {
        Some(
            s,
        ) => seq![ResultModel { source: e.key, target: e.mapping.value, score: s as int }],
        None => seq![],
    };
    source_hit + target_hit
}

/// The raw candidates collected from `entries[i..]`, having already
/// collected `cnt`: scanning stops before the next entry once more than
/// `limit` candidates are in hand.
pub open spec fn raw_from(
    entries: Seq<EntryModel>,
    q: Seq<char>,
    limit: int,
    i: int,
    cnt: int,
) -> Seq<ResultModel>
    decreases entries.len() - i,
{
    if i < 0 || i >= entries.len() || cnt > limit {
        seq![]
    } else {
        let h = entry_hits(entries[i], q);
        h + raw_from(entries, q, limit, i + 1, cnt + h.len())
    }
}

/// All raw candidates of a scan over `entries` with cutoff `limit`.
pub open spec fn raw_candidates(entries: Seq<EntryModel>, q: Seq<char>, limit: int) -> Seq<
    ResultModel,
> {
    raw_from(entries, q, limit, 0, 0)
}

/// `acc` with `r` inserted after every element scoring at least `r.score`:
/// a later candidate never overtakes an equal-scored earlier one.
pub open spec fn insert_desc(acc: Seq<ResultModel>, r: ResultModel) -> Seq<ResultModel>
    decreases acc.len(),
{
    if acc.len() == 0 {
        seq![r]
    } else if acc.last().score >= r.score {
        acc.push(r)
    } else {
        insert_desc(acc.drop_last(), r).push(acc.last())
    }
}

/// `s` sorted by descending score, stably.
pub open spec fn sort_desc(s: Seq<ResultModel>) -> Seq<ResultModel>
    decreases s.len(),
{
    if s.len() == 0 {
        seq![]
    } else {
        insert_desc(sort_desc(s.drop_last()), s.last())
    }
}

/// Whether `s` holds a result for the pair (`source`, `target`).
pub open spec fn pair_in(s: Seq<ResultModel>, source: Seq<char>, target: Seq<char>) -> bool {
    exists|i: int| 0 <= i < s.len() && s[i].source == source && s[i].target == target
}

/// Whether `s` holds a result for the pair (`source`, `target`) scoring at
/// least `bound`.
pub open spec fn pair_best(
    s: Seq<ResultModel>,
    source: Seq<char>,
    target: Seq<char>,
    bound: int,
) -> bool {
    exists|j: int|
        0 <= j < s.len() && (#[trigger] s[j]).source == source && s[j].target == target
            && s[j].score >= bound
}

/// `s` with every repeated (source, target) pair dropped, keeping the first
/// occurrence.
pub open spec fn dedup_first(s: Seq<ResultModel>) -> Seq<ResultModel>
    decreases s.len(),
{
    if s.len() == 0 {
        seq![]
    } else {
        let rest = dedup_first(s.drop_last());
        if pair_in(rest, s.last().source, s.last().target) {
            rest
        } else {
            rest.push(s.last())
        }
    }
}

/// The whole search outcome: nothing for an empty query; otherwise the raw
/// candidates of the scan, sorted by descending score, deduplicated by pair,
/// and cut to at most `limit` results (dedup may leave fewer; nothing is
/// topped up past the raw-candidate cut).
pub open spec fn spec_search(entries: Seq<EntryModel>, q: Seq<char>, limit: int) -> Seq<
    ResultModel,
> {
    if q.len() == 0 {
        seq![]
    } else {
        let d = dedup_first(sort_desc(raw_candidates(entries, q, limit)));
        if d.len() <= limit {
            d
        } else {
            d.take(limit)
        }
    }
}

/// Scores never increase from left to right.
pub open spec fn sorted_desc(s: Seq<ResultModel>) -> bool {
    forall|i: int, j: int| 0 <= i <= j < s.len() ==> s[i].score >= s[j].score
}

/// Whether `x` occurs in `s`.
pub open spec fn occurs(s: Seq<ResultModel>, x: ResultModel) -> bool {
    exists|i: int| 0 <= i < s.len() && s[i] == x
}

proof fn lemma_occurs_push(s: Seq<ResultModel>, y: ResultModel)
    ensures
        forall|x: ResultModel| occurs(s.push(y), x) <==> occurs(s, x) || x == y,
{
    assert forall|x: ResultModel| occurs(s.push(y), x) implies occurs(s, x) || x == y by {
        let i = choose|i: int| 0 <= i < s.push(y).len() && s.push(y)[i] == x;
        if i < s.len() {
            assert(s[i] == x);
        }
    }
    assert forall|x: ResultModel| occurs(s, x) || x == y implies occurs(s.push(y), x) by {
        if occurs(s, x) {
            let i = choose|i: int| 0 <= i < s.len() && s[i] == x;
            assert(s.push(y)[i] == x);
        } else {
            assert(s.push(y)[s.len() as int] == x);
        }
    }
}

/// Inserting preserves length, membership and descending order.
proof fn lemma_insert_desc_props(acc: Seq<ResultModel>, r: ResultModel)
    ensures
        insert_desc(acc, r).len() == acc.len() + 1,
        forall|x: ResultModel| occurs(insert_desc(acc, r), x) <==> occurs(acc, x) || x == r,
        sorted_desc(acc) ==> sorted_desc(insert_desc(acc, r)),
    decreases acc.len(),
{
    let u = insert_desc(acc, r);
    if acc.len() == 0 {
        assert(u == seq![r]);
        assert(u[0] == r);
        assert forall|x: ResultModel| occurs(u, x) implies occurs(acc, x) || x == r by {
            let i = choose|i: int| 0 <= i < u.len() && u[i] == x;
            assert(i == 0);
        }
    } else if acc.last().score >= r.score {
        assert(u == acc.push(r));
        lemma_occurs_push(acc, r);
        if sorted_desc(acc) {
            assert forall|i: int, j: int| 0 <= i <= j < u.len() implies u[i].score >= u[j].score by {
                if j < acc.len() {
                    assert(u[i] == acc[i] && u[j] == acc[j]);
                } else if i < acc.len() {
                    assert(u[i] == acc[i] && u[j] == r);
                    assert(acc[i].score >= acc.last().score);
                }
            }
        }
    } else {
        let t = insert_desc(acc.drop_last(), r);
        lemma_insert_desc_props(acc.drop_last(), r);
        assert(u == t.push(acc.last()));
        lemma_occurs_push(t, acc.last());
        assert(acc =~= acc.drop_last().push(acc.last()));
        lemma_occurs_push(acc.drop_last(), acc.last());
        assert forall|x: ResultModel| occurs(u, x) <==> occurs(acc, x) || x == r by {
            assert(occurs(u, x) <==> occurs(t, x) || x == acc.last());
            assert(occurs(t, x) <==> occurs(acc.drop_last(), x) || x == r);
            assert(occurs(acc, x) <==> occurs(acc.drop_last(), x) || x == acc.last());
        }
        if sorted_desc(acc) {
            assert(sorted_desc(acc.drop_last())) by {
                assert(forall|i: int|
                    0 <= i < acc.drop_last().len() ==> acc.drop_last()[i] == acc[i]);
            }
            assert(sorted_desc(t));
            assert forall|i: int| 0 <= i < t.len() implies t[i].score >= acc.last().score by {
                assert(occurs(t, t[i]));
                assert(occurs(acc.drop_last(), t[i]) || t[i] == r);
                if t[i] == r {
                } else {
                    assert(occurs(acc.drop_last(), t[i]));
                    let k = choose|k: int| 0 <= k < acc.drop_last().len() && acc.drop_last()[k]
                        == t[i];
                    assert(acc.drop_last()[k] == acc[k]);
                    assert(acc[k] == t[i]);
                    assert(acc[k].score >= acc.last().score);
                }
            }
            assert forall|i: int, j: int| 0 <= i <= j < u.len() implies u[i].score >= u[j].score by {
                if j < t.len() {
                    assert(u[i] == t[i] && u[j] == t[j]);
                } else if i < t.len() {
                    assert(u[i] == t[i] && u[j] == acc.last());
                }
            }
        }
    }
}

/// Sorting preserves length and membership and orders scores descending.
pub proof fn lemma_sort_desc_props(s: Seq<ResultModel>)
    ensures
        sort_desc(s).len() == s.len(),
        forall|x: ResultModel| occurs(sort_desc(s), x) <==> occurs(s, x),
        sorted_desc(sort_desc(s)),
    decreases s.len(),
{
    if s.len() > 0 {
        lemma_sort_desc_props(s.drop_last());
        lemma_insert_desc_props(sort_desc(s.drop_last()), s.last());
        assert(s =~= s.drop_last().push(s.last()));
        lemma_occurs_push(s.drop_last(), s.last());
        assert(sort_desc(s) == insert_desc(sort_desc(s.drop_last()), s.last()));
        assert forall|x: ResultModel| occurs(sort_desc(s), x) <==> occurs(s, x) by {
            assert(occurs(sort_desc(s), x) <==> occurs(sort_desc(s.drop_last()), x) || x
                == s.last());
            assert(occurs(s, x) <==> occurs(s.drop_last(), x) || x == s.last());
        }
    }
}

/// Deduplication never repeats a (source, target) pair.
pub proof fn lemma_dedup_distinct(s: Seq<ResultModel>)
    ensures
        forall|i: int, j: int|
            0 <= i < j < dedup_first(s).len() ==> !((#[trigger] dedup_first(s)[i]).source == (
            #[trigger] dedup_first(s)[j]).source && dedup_first(s)[i].target
                == dedup_first(s)[j].target),
    decreases s.len(),
{
    if s.len() > 0 {
        let s0 = s.drop_last();
        let x = s.last();
        let rest = dedup_first(s0);
        let d = dedup_first(s);
        lemma_dedup_distinct(s0);
        if !pair_in(rest, x.source, x.target) {
            assert(d == rest.push(x));
            assert forall|i: int, j: int|
                0 <= i < j < d.len() implies !((#[trigger] d[i]).source == (
            #[trigger] d[j]).source && d[i].target == d[j].target) by {
                if j == d.len() - 1 {
                    assert(d[i] == rest[i] && d[j] == x);
                    if d[i].source == x.source && d[i].target == x.target {
                        assert(pair_in(rest, x.source, x.target));
                    }
                } else {
                    assert(d[i] == rest[i] && d[j] == rest[j]);
                }
            }
        }
    }
}

/// Deduplication invents nothing: every kept element occurs in the input.
pub proof fn lemma_dedup_subset(s: Seq<ResultModel>)
    ensures
        forall|j: int| 0 <= j < dedup_first(s).len() ==> occurs(s, #[trigger] dedup_first(s)[j]),
    decreases s.len(),
{
    if s.len() > 0 {
        let s0 = s.drop_last();
        let x = s.last();
        let rest = dedup_first(s0);
        let d = dedup_first(s);
        lemma_dedup_subset(s0);
        assert(s =~= s0.push(x));
        lemma_occurs_push(s0, x);
        if pair_in(rest, x.source, x.target) {
            assert(d == rest);
        } else {
            assert(d == rest.push(x));
            assert forall|j: int| 0 <= j < d.len() implies occurs(s, #[trigger] d[j]) by {
                if j < rest.len() {
                    assert(d[j] == rest[j]);
                } else {
                    assert(d[j] == x);
                }
            }
        }
    }
}

/// Deduplication drops no pair: every pair of the input is represented.
pub proof fn lemma_dedup_complete(s: Seq<ResultModel>)
    ensures
        forall|i: int|
            0 <= i < s.len() ==> pair_in(dedup_first(s), (#[trigger] s[i]).source, s[i].target),
    decreases s.len(),
{
    if s.len() > 0 {
        let s0 = s.drop_last();
        let x = s.last();
        let rest = dedup_first(s0);
        let d = dedup_first(s);
        lemma_dedup_complete(s0);
        assert(forall|i: int| 0 <= i < s0.len() ==> s0[i] == s[i]);
        assert forall|i: int|
            0 <= i < s.len() implies pair_in(d, (#[trigger] s[i]).source, s[i].target) by {
            if i < s0.len() {
                let j = choose|j: int|
                    0 <= j < rest.len() && rest[j].source == s0[i].source && rest[j].target
                        == s0[i].target;
                assert(d[j].source == s[i].source && d[j].target == s[i].target);
            } else {
                assert(s[i] == x);
                if pair_in(rest, x.source, x.target) {
                    let j = choose|j: int|
                        0 <= j < rest.len() && rest[j].source == x.source && rest[j].target
                            == x.target;
                    assert(d[j].source == s[i].source && d[j].target == s[i].target);
                } else {
                    assert(d[d.len() - 1].source == s[i].source && d[d.len() - 1].target
                        == s[i].target);
                }
            }
        }
    }
}

/// On a sorted input, the kept occurrence of each pair scores at least as
/// well as every occurrence of that pair.
pub proof fn lemma_dedup_best(s: Seq<ResultModel>)
    requires
        sorted_desc(s),
    ensures
        forall|i: int|
            0 <= i < s.len() ==> pair_best(
                dedup_first(s),
                (#[trigger] s[i]).source,
                s[i].target,
                s[i].score,
            ),
    decreases s.len(),
{
    if s.len() > 0 {
        let s0 = s.drop_last();
        let x = s.last();
        let rest = dedup_first(s0);
        let d = dedup_first(s);
        assert(forall|i: int| 0 <= i < s0.len() ==> s0[i] == s[i]);
        assert(sorted_desc(s0));
        lemma_dedup_best(s0);
        // A representative for the final element's pair: either its pair was
        // already kept — at a position that, the input being sorted, scores
        // at least as well — or the element itself is appended.
        assert(pair_best(d, x.source, x.target, x.score)) by {
            if pair_in(rest, x.source, x.target) {
                assert(d == rest);
                lemma_dedup_subset(s0);
                let j = choose|j: int|
                    0 <= j < rest.len() && rest[j].source == x.source && rest[j].target == x.target;
                assert(occurs(s0, rest[j]));
                let k = choose|k: int| 0 <= k < s0.len() && s0[k] == rest[j];
                assert(s[k] == rest[j]);
                assert(s[k].score >= x.score);
            } else {
                assert(d == rest.push(x));
                assert(d[d.len() - 1] == x);
            }
        }
        // In either branch `rest` is a prefix of `d`, so the shorter input's
        // representatives carry over.
        assert forall|i: int| 0 <= i < s.len() implies pair_best(
            d,
            (#[trigger] s[i]).source,
            s[i].target,
            s[i].score,
        ) by {
            if i < s0.len() {
                assert(pair_best(rest, s0[i].source, s0[i].target, s0[i].score));
                let j = choose|j: int|
                    0 <= j < rest.len() && (#[trigger] rest[j]).source == s0[i].source
                        && rest[j].target == s0[i].target && rest[j].score >= s0[i].score;
                assert(d[j] == rest[j]);
                assert(pair_best(d, s[i].source, s[i].target, s[i].score));
            } else {
                assert(s[i] == x);
            }
        }
    }
}

/// Dedup law for the whole search: the returned results never repeat a
/// (source, target) pair, and before the final cut every pair the scan
/// produced is present, at the highest score either of its sides achieved.
pub proof fn lemma_search_dedup(entries: Seq<EntryModel>, q: Seq<char>, limit: int)
    requires
        0 <= limit,
    ensures
        forall|i: int, j: int|
            0 <= i < j < spec_search(entries, q, limit).len() ==> !((#[trigger] spec_search(
                entries,
                q,
                limit,
            )[i]).source == (#[trigger] spec_search(entries, q, limit)[j]).source && spec_search(
                entries,
                q,
                limit,
            )[i].target == spec_search(entries, q, limit)[j].target),
        forall|i: int|
            0 <= i < raw_candidates(entries, q, limit).len() ==> pair_best(
                dedup_first(sort_desc(raw_candidates(entries, q, limit))),
                (#[trigger] raw_candidates(entries, q, limit)[i]).source,
                raw_candidates(entries, q, limit)[i].target,
                raw_candidates(entries, q, limit)[i].score,
            ),
{
    let raw = raw_candidates(entries, q, limit);
    let srt = sort_desc(raw);
    let d = dedup_first(srt);
    lemma_sort_desc_props(raw);
    lemma_dedup_distinct(srt);
    lemma_dedup_best(srt);
    let r = spec_search(entries, q, limit);
    assert(forall|i: int| 0 <= i < r.len() ==> r[i] == d[i]);
    assert forall|i: int| 0 <= i < raw.len() implies pair_best(
        d,
        (#[trigger] raw[i]).source,
        raw[i].target,
        raw[i].score,
    ) by {
        assert(occurs(raw, raw[i]));
        assert(occurs(srt, raw[i]));
        let k = choose|k: int| 0 <= k < srt.len() && srt[k] == raw[i];
        assert(pair_best(d, srt[k].source, srt[k].target, srt[k].score));
    }
}

/// When every element from position `j` on scores below `r`, and the one
/// before `j` (if any) does not, `insert_desc` places `r` at position `j`.
proof fn lemma_insert_desc_at(s: Seq<ResultModel>, r: ResultModel, j: int)
    requires
        0 <= j <= s.len(),
        forall|t: int| j <= t < s.len() ==> (#[trigger] s[t]).score < r.score,
        j > 0 ==> s[j - 1].score >= r.score,
    ensures
        insert_desc(s, r) == s.insert(j, r),
    decreases s.len(),
{
    if j == s.len() {
        if s.len() == 0 {
            assert(insert_desc(s, r) =~= s.insert(j, r));
        } else {
            assert(s.last().score >= r.score);
            assert(s.push(r) =~= s.insert(j, r));
        }
    } else {
        assert(s.last().score < r.score);
        let t = s.drop_last();
        assert(forall|u: int| j <= u < t.len() ==> (#[trigger] t[u]).score < r.score);
        lemma_insert_desc_at(t, r, j);
        assert(t.insert(j, r).push(s.last()) =~= s.insert(j, r));
    }
}

/// Whether `v` holds a result for the pair (`source`, `target`).
fn contains_pair(v: &Vec<SearchResult>, source: &String, target: &String) -> (r: bool)
    ensures
        r == pair_in(v.deep_view(), source@, target@),
{
    let n = v.len();
    let mut i: usize = 0;
    while i < n
        invariant
            n == v.len(),
            0 <= i <= n,
            forall|t: int|
                0 <= t < i ==> !((#[trigger] v.deep_view()[t]).source == source@
                    && v.deep_view()[t].target == target@),
        decreases n - i,
    {
        if v[i].source == *source && v[i].target == *target {
            proof {
                assert(v.deep_view()[i as int].source == source@);
                assert(v.deep_view()[i as int].target == target@);
                assert(pair_in(v.deep_view(), source@, target@));
            }
            return true;
        }
        i = i + 1;
    }
    false
}

/// Fuzzy search: the best-scoring candidates for `query` over both sides of
/// every mapping, at most `limit` of them, approximately (see the module
/// documentation). An empty query yields no results.
pub fn search_mappings(set: &MappingSet, query: &str, limit: usize) -> (r: Vec<SearchResult>)
    ensures
        r.deep_view() == spec_search(set@, query@, limit as int),
        query@.len() == 0 ==> r.deep_view() == Seq::<ResultModel>::empty(),
{
    let ghost sv = set@;
    let ghost qv = query@;
    let ghost lim = limit as int;
    if query.is_empty() {
        let r: Vec<SearchResult> = Vec::new();
        proof {
            assert(r.deep_view() =~= Seq::<ResultModel>::empty());
        }
        return r;
    }
    // Collect raw candidates in scan order, stopping once more than `limit`
    // are in hand.
    let entries = set.all_entries();
    let n = entries.len();
    let mut raw: Vec<SearchResult> = Vec::new();
    proof {
        assert(raw.deep_view() =~= Seq::<ResultModel>::empty());
    }
    let mut i: usize = 0;
    while i < n && raw.len() <= limit
        invariant
            n == entries.len(),
            entries.deep_view() == sv,
            qv == query@,
            lim == limit as int,
            0 <= i <= n,
            raw_candidates(sv, qv, lim) == raw.deep_view() + raw_from(
                sv,
                qv,
                lim,
                i as int,
                raw.deep_view().len() as int,
            ),
        decreases n - i,
    {
        let ghost before = raw.deep_view();
        let ghost h = entry_hits(sv[i as int], qv);
        let e = &entries[i];
        match fuzzy_score(e.key.as_str(), query) {
            Some(score) => {
                raw.push(
                    SearchResult {
                        source: e.key.clone(),
                        target: e.mapping.value.clone(),
                        score,
                    },
                );
            },
            None => {},
        }
        match fuzzy_score(e.mapping.value.as_str(), query) {
            Some(score) => {
                raw.push(
                    SearchResult {
                        source: e.key.clone(),
                        target: e.mapping.value.clone(),
                        score,
                    },
                );
            },
            None => {},
        }
        proof {
            assert(raw.deep_view() =~= before + h);
            assert(raw_from(sv, qv, lim, i as int, before.len() as int) == h + raw_from(
                sv,
                qv,
                lim,
                i as int + 1,
                before.len() + h.len() as int,
            ));
            assert(raw.deep_view() + raw_from(sv, qv, lim, i as int + 1, raw.deep_view().len() as int)
                =~= before + raw_from(sv, qv, lim, i as int, before.len() as int));
        }
        i = i + 1;
    }
    proof {
        assert(raw_from(sv, qv, lim, i as int, raw.deep_view().len() as int) =~= Seq::<
            ResultModel,
        >::empty());
        assert(raw_candidates(sv, qv, lim) =~= raw.deep_view());
    }
    // Sort by descending score, stably.
    let ghost rawdv = raw.deep_view();
    let mut sorted: Vec<SearchResult> = Vec::new();
    let ghost mut done = Seq::<ResultModel>::empty();
    proof {
        assert(sorted.deep_view() =~= sort_desc(done));
        assert(done + raw.deep_view() =~= rawdv);
    }
    while raw.len() > 0
        invariant
            rawdv == done + raw.deep_view(),
            sorted.deep_view() == sort_desc(done),
        decreases raw.len(),
    {
        let ghost rdv = raw.deep_view();
        let ghost before = sorted.deep_view();
        let x = raw.remove(0);
        let ghost xv = x.deep_view();
        proof {
            assert(raw.deep_view() =~= rdv.drop_first());
            assert(done.push(xv) + raw.deep_view() =~= rawdv);
        }
        let mut j: usize = sorted.len();
        while j > 0 && sorted[j - 1].score < x.score
            invariant
                sorted.deep_view() == before,
                sorted.len() == before.len(),
                xv == x.deep_view(),
                0 <= j <= sorted.len(),
                forall|t: int| j <= t < before.len() ==> (#[trigger] before[t]).score < xv.score,
            decreases j,
        {
            j = j - 1;
        }
        proof {
            lemma_insert_desc_at(before, xv, j as int);
        }
        sorted.insert(j, x);
        proof {
            assert(sorted.deep_view() =~= before.insert(j as int, xv));
            assert(done.push(xv).drop_last() =~= done);
            assert(sorted.deep_view() == sort_desc(done.push(xv)));
            done = done.push(xv);
        }
    }
    proof {
        assert(done =~= rawdv);
    }
    // Drop repeated (source, target) pairs, keeping the first occurrence.
    let ghost sdv = sorted.deep_view();
    let mut out: Vec<SearchResult> = Vec::new();
    let ghost mut taken = Seq::<ResultModel>::empty();
    proof {
        assert(out.deep_view() =~= dedup_first(taken));
        assert(taken + sorted.deep_view() =~= sdv);
    }
    while sorted.len() > 0
        invariant
            sdv == taken + sorted.deep_view(),
            out.deep_view() == dedup_first(taken),
        decreases sorted.len(),
    {
        let ghost rdv = sorted.deep_view();
        let ghost before = out.deep_view();
        let x = sorted.remove(0);
        let ghost xv = x.deep_view();
        proof {
            assert(sorted.deep_view() =~= rdv.drop_first());
            assert(taken.push(xv) + sorted.deep_view() =~= sdv);
            assert(taken.push(xv).drop_last() =~= taken);
        }
        if !contains_pair(&out, &x.source, &x.target) {
            out.push(x);
            proof {
                assert(out.deep_view() =~= before.push(xv));
            }
        }
        proof {
            assert(out.deep_view() == dedup_first(taken.push(xv)));
            taken = taken.push(xv);
        }
    }
    proof {
        assert(taken =~= sdv);
    }
    // Cut to at most `limit` results.
    if out.len() > limit {
        out.truncate(limit);
        proof {
            assert(out.deep_view() =~= dedup_first(sort_desc(rawdv)).take(lim));
        }
    }
    proof {
        assert(out.deep_view() =~= spec_search(sv, qv, lim));
    }
    out
}

impl MappingStore {
    /// Fuzzy search over the published set, capped at the default limit;
    /// with nothing published there is nothing to search.
    pub fn search(&self, query: &str) -> (r: Option<Vec<SearchResult>>)
        ensures
            match self@ {
                None => r is None,
                Some(s) => r matches Some(v) && v.deep_view() == spec_search(
                    s,
                    query@,
                    DEFAULT_SEARCH_LIMIT as int,
                ),
            },
    {
        match self.published_set() {
            Some(set) => Some(search_mappings(set, query, DEFAULT_SEARCH_LIMIT)),
            None => None,
        }
    }
}

} // verus!
