//! The incremental query cache: it memoizes, per query, the ranked result
//! list, and resolves a missing query by rescoring only the records in the
//! nearest cached ancestor's list — never the full record set — which the
//! monotonic-narrowing law proves equivalent to scoring from scratch.
use crate::line::Line;
use crate::rank::{
    data_distinct, lemma_sort_data_sorted, lemma_sort_strict, lemma_strict_sorted_unique,
    scores_data, sort_data, sort_scores, ScoreData,
};
use crate::score::{
    calculate_score, lemma_prefix_narrowing, lowered, score_data, score_ok, spec_score, Score,
};
use crate::unicode::push_char;
use rayon::iter::IntoParallelRefIterator;
use rayon::iter::ParallelIterator;
use vstd::prelude::*;

verus! {

/// A well-formed record set: every record is well formed and its identity
/// is its position.
pub open spec fn lines_wf(lines: Seq<Line>) -> bool {
    forall|i: int|
        0 <= i < lines.len() ==> (#[trigger] lines[i]).wf() && lines[i].index == i
}

/// Record identities pairwise distinct.
pub open spec fn lines_distinct(lines: Seq<Line>) -> bool {
    forall|a: int, b: int| 0 <= a < b < lines.len() ==> lines[a].index != lines[b].index
}

/// The matches of a record sequence against a (lowered) query, in the
/// records' order: the score content of every record the scorer accepts.
pub open spec fn match_data(lines: Seq<Line>, q: Seq<char>) -> Seq<ScoreData>
    decreases lines.len(),
{
    if lines.len() == 0 {
        Seq::empty()
    } else {
        let rest = match_data(lines.drop_last(), q);
        match spec_score(lines.last().low_char_vec@, q) {
            Some(t) => rest.push((t.0, t.1, t.2, lines.last())),
            None => rest,
        }
    }
}

/// The ranked result list for a record set and a (lowered) query: every
/// record scored directly, matches kept in record order, sorted by the
/// ranking order.
pub open spec fn ranked_data(lines: Seq<Line>, q: Seq<char>) -> Seq<ScoreData> {
    sort_data(match_data(lines, q))
}

/// One record's contribution to a match list.
pub open spec fn line_match(l: Line, q: Seq<char>, d: ScoreData) -> bool {
    &&& d.3 == l
    &&& spec_score(l.low_char_vec@, q) == Some((d.0, d.1, d.2))
}

/// A match list holds exactly the contributions of the matching records.
proof fn lemma_match_data_elems(lines: Seq<Line>, q: Seq<char>)
    ensures
        forall|d: ScoreData|
            #[trigger] match_data(lines, q).contains(d) ==> exists|i: int|
                0 <= i < lines.len() && line_match(#[trigger] lines[i], q, d),
        forall|i: int, d: ScoreData|
            0 <= i < lines.len() && #[trigger] line_match(#[trigger] lines[i], q, d)
                ==> match_data(lines, q).contains(d),
    decreases lines.len(),
{
    if lines.len() == 0 {
    } else {
        let prev = lines.drop_last();
        lemma_match_data_elems(prev, q);
        let rest = match_data(prev, q);
        let cur = match_data(lines, q);
        assert forall|d: ScoreData| #[trigger] cur.contains(d) implies exists|i: int|
            0 <= i < lines.len() && line_match(#[trigger] lines[i], q, d) by {
            let w = choose|w: int| 0 <= w < cur.len() && cur[w] == d;
            if w < rest.len() {
                assert(rest[w] == d);
                assert(rest.contains(d));
                let i = choose|i: int| 0 <= i < prev.len() && line_match(#[trigger] prev[i], q, d);
                assert(lines[i] == prev[i]);
                assert(line_match(lines[i], q, d));
            } else {
                let t = spec_score(lines.last().low_char_vec@, q)->Some_0;
                assert(d == (t.0, t.1, t.2, lines.last()));
                assert(line_match(lines[lines.len() - 1], q, d));
            }
        }
        assert forall|i: int, d: ScoreData|
            0 <= i < lines.len() && #[trigger] line_match(#[trigger] lines[i], q, d)
                implies cur.contains(d) by {
            if i < lines.len() - 1 {
                assert(prev[i] == lines[i]);
                assert(line_match(prev[i], q, d));
                assert(rest.contains(d));
                let w = choose|w: int| 0 <= w < rest.len() && rest[w] == d;
                assert(cur[w] == d);
            } else {
                assert(d.3 == lines.last());
                let t = spec_score(lines.last().low_char_vec@, q)->Some_0;
                assert(d == (t.0, t.1, t.2, lines.last()));
                assert(cur[cur.len() - 1] == d);
            }
        }
    }
}

/// A record set with distinct identities yields a match list with distinct
/// identities.
proof fn lemma_match_data_distinct(lines: Seq<Line>, q: Seq<char>)
    requires
        lines_distinct(lines),
    ensures
        data_distinct(match_data(lines, q)),
    decreases lines.len(),
{
    if lines.len() > 0 {
        let prev = lines.drop_last();
        assert forall|a: int, b: int|
            0 <= a < b < prev.len() implies prev[a].index != prev[b].index by {
            assert(prev[a] == lines[a]);
            assert(prev[b] == lines[b]);
        }
        lemma_match_data_distinct(prev, q);
        lemma_match_data_elems(prev, q);
        let rest = match_data(prev, q);
        let cur = match_data(lines, q);
        assert forall|a: int, b: int|
            0 <= a < b < cur.len() implies cur[a].3.index != cur[b].3.index by {
            if b < rest.len() {
                assert(cur[a] == rest[a]);
                assert(cur[b] == rest[b]);
            } else if b == rest.len() && cur.len() == rest.len() + 1 {
                assert(cur[a] == rest[a]);
                assert(rest.contains(rest[a]));
                let i = choose|i: int|
                    0 <= i < prev.len() && line_match(#[trigger] prev[i], q, rest[a]);
                assert(rest[a].3 == prev[i] && prev[i] == lines[i]);
                assert(lines[i].index != lines[lines.len() - 1].index);
                assert(cur[b].3 == lines.last());
            }
        }
    }
}

/// Lowercasing a prefix is taking a prefix of the lowercased query.
proof fn lemma_lowered_take(q: Seq<char>, m: int)
    requires
        0 <= m <= q.len(),
    ensures
        lowered(q.take(m)) == lowered(q).take(m),
{
    assert(lowered(q.take(m)) =~= lowered(q).take(m));
}

/// Cache/direct equivalence: rescoring only the records of the ranked list
/// of an ancestor (prefix) query and ranking the outcome yields exactly
/// the ranked list of scoring every record directly.
proof fn lemma_cache_equiv(
    lines: Seq<Line>,
    anc_lines: Seq<Line>,
    qa: Seq<char>,
    q: Seq<char>,
    m: int,
)
    requires
        lines_wf(lines),
        0 <= m <= q.len(),
        qa == q.take(m),
        anc_lines.len() == ranked_data(lines, qa).len(),
        forall|i: int|
            0 <= i < anc_lines.len() ==> anc_lines[i] == ranked_data(lines, qa)[i].3,
    ensures
        sort_data(match_data(anc_lines, q)) == ranked_data(lines, q),
{
    let ranked_a = ranked_data(lines, qa);
    let md_a = match_data(lines, qa);
    let md_direct = match_data(lines, q);
    let md_anc = match_data(anc_lines, q);

    assert(lines_distinct(lines));
    lemma_match_data_elems(lines, q);
    lemma_match_data_elems(lines, qa);
    lemma_match_data_distinct(lines, q);
    lemma_match_data_distinct(lines, qa);
    lemma_sort_data_sorted(md_a);
    lemma_sort_strict(md_a);

    // the ancestor's records: exactly the records of the set that match qa
    assert forall|i: int| 0 <= i < anc_lines.len() implies (#[trigger] anc_lines[i]).wf()
        && spec_score(anc_lines[i].low_char_vec@, qa) is Some by {
        assert(md_a.contains(ranked_a[i]));
        let w = choose|w: int| 0 <= w < lines.len() && line_match(#[trigger] lines[w], qa, ranked_a[i]);
        assert(anc_lines[i] == lines[w]);
    }
    assert forall|a: int, b: int|
        0 <= a < b < anc_lines.len() implies anc_lines[a].index != anc_lines[b].index by {
        assert(ranked_a[a].3.index != ranked_a[b].3.index);
    }
    lemma_match_data_elems(anc_lines, q);
    lemma_match_data_distinct(anc_lines, q);

    // same elements on both paths
    assert forall|d: ScoreData| md_anc.contains(d) implies md_direct.contains(d) by {
        let i = choose|i: int| 0 <= i < anc_lines.len() && line_match(#[trigger] anc_lines[i], q, d);
        assert(md_a.contains(ranked_a[i]));
        let w = choose|w: int| 0 <= w < lines.len() && line_match(#[trigger] lines[w], qa, ranked_a[i]);
        assert(anc_lines[i] == lines[w]);
        assert(line_match(lines[w], q, d));
    }
    assert forall|d: ScoreData| md_direct.contains(d) implies md_anc.contains(d) by {
        let w = choose|w: int| 0 <= w < lines.len() && line_match(#[trigger] lines[w], q, d);
        lemma_prefix_narrowing(lines[w].low_char_vec@, q, m);
        let da = (
            spec_score(lines[w].low_char_vec@, qa)->Some_0.0,
            spec_score(lines[w].low_char_vec@, qa)->Some_0.1,
            spec_score(lines[w].low_char_vec@, qa)->Some_0.2,
            lines[w],
        );
        assert(line_match(lines[w], qa, da));
        assert(md_a.contains(da));
        assert(sort_data(md_a).contains(da));
        let p = choose|p: int| 0 <= p < ranked_a.len() && ranked_a[p] == da;
        assert(anc_lines[p] == lines[w]);
        assert(line_match(anc_lines[p], q, d));
    }

    // both sorted lists are strictly sorted with the same elements
    lemma_sort_strict(md_anc);
    lemma_sort_strict(md_direct);
    lemma_sort_data_sorted(md_anc);
    lemma_sort_data_sorted(md_direct);
    assert forall|d: ScoreData|
        sort_data(md_anc).contains(d) implies sort_data(md_direct).contains(d) by {
        assert(md_anc.contains(d));
        assert(md_direct.contains(d));
    }
    assert forall|d: ScoreData|
        sort_data(md_direct).contains(d) implies sort_data(md_anc).contains(d) by {
        assert(md_direct.contains(d));
        assert(md_anc.contains(d));
    }
    lemma_strict_sorted_unique(sort_data(md_anc), sort_data(md_direct));
}

/// Every result of a ranked list comes from the record set: its record is
/// one of the records, standing at the position its identity names.
pub proof fn lemma_ranked_bounds(lines: Seq<Line>, q: Seq<char>)
    requires
        lines_wf(lines),
    ensures
        forall|i: int|
            0 <= i < ranked_data(lines, q).len() ==> (#[trigger] ranked_data(lines, q)[i]).3.index
                < lines.len() && lines[ranked_data(lines, q)[i].3.index as int] == ranked_data(
                lines,
                q,
            )[i].3,
{
    lemma_match_data_elems(lines, q);
    lemma_sort_data_sorted(match_data(lines, q));
    let r = ranked_data(lines, q);
    assert forall|i: int| 0 <= i < r.len() implies (#[trigger] r[i]).3.index < lines.len()
        && lines[r[i].3.index as int] == r[i].3 by {
        assert(match_data(lines, q).contains(r[i]));
        let w = choose|w: int| 0 <= w < lines.len() && line_match(#[trigger] lines[w], q, r[i]);
        assert(lines[w].index == w);
    }
}

/// Stable total order of a ranked list: the comparator never ranks a later
/// result strictly before an earlier one, and results fully tied on
/// points, span length and record length stand in their records' load
/// order — the order the records were read in.
pub proof fn lemma_stable_total_order(lines: Seq<Line>, q: Seq<char>)
    requires
        lines_wf(lines),
    ensures
        forall|i: int, j: int|
            0 <= i < j < ranked_data(lines, q).len() ==> #[trigger] crate::score::cmp_data(
                ranked_data(lines, q)[i],
                ranked_data(lines, q)[j],
            ) != core::cmp::Ordering::Greater,
        forall|i: int, j: int|
            0 <= i < j < ranked_data(lines, q).len() && #[trigger] crate::score::cmp_data(
                ranked_data(lines, q)[i],
                ranked_data(lines, q)[j],
            ) == core::cmp::Ordering::Equal ==> ranked_data(lines, q)[i].3.index < ranked_data(
                lines,
                q,
            )[j].3.index,
{
    assert(lines_distinct(lines));
    lemma_match_data_distinct(lines, q);
    lemma_sort_strict(match_data(lines, q));
    let r = ranked_data(lines, q);
    assert forall|i: int, j: int|
        0 <= i < j < r.len() implies #[trigger] crate::score::cmp_data(r[i], r[j])
        != core::cmp::Ordering::Greater && (crate::score::cmp_data(r[i], r[j])
        == core::cmp::Ordering::Equal ==> r[i].3.index < r[j].3.index) by {
        assert(crate::rank::rank_lt(r[i], r[j]));
    }
}

/// Relies on rayon's parallel iterators: `par_iter().filter_map(..)
/// .collect()` over an immutable slice produces the same vector as the
/// sequential iterator chain would, in the input's order. The closure only
/// calls the verified scorer.
#[verifier::external_body]
fn par_score_all<'a>(lines: &'a Vec<Line>, query: &Vec<char>) -> (r: Vec<Score<'a>>)
    requires
        forall|i: int| 0 <= i < lines@.len() ==> (#[trigger] lines@[i]).wf(),
    ensures
        scores_data(r@) == match_data(lines@, lowered(query@)),
        forall|i: int| 0 <= i < r@.len() ==> score_ok(#[trigger] r@[i]),
{
    lines.par_iter().filter_map(|l| calculate_score(l, query)).collect()
}

/// Relies on rayon's parallel iterators, as `par_score_all` does: rescoring
/// the records of an existing result list equals the sequential
/// filter-map, in the list's order.
#[verifier::external_body]
fn par_rescore<'a>(scores: &Vec<Score<'a>>, query: &Vec<char>) -> (r: Vec<Score<'a>>)
    requires
        forall|i: int| 0 <= i < scores@.len() ==> (#[trigger] scores@[i]).line.wf(),
    ensures
        scores_data(r@) == match_data(
            scores@.map_values(|s: Score<'a>| *s.line),
            lowered(query@),
        ),
        forall|i: int| 0 <= i < r@.len() ==> score_ok(#[trigger] r@[i]),
{
    scores.par_iter().filter_map(|s| calculate_score(s.line, query)).collect()
}

/// The query characters as one string.
pub fn query_str(query: &[char]) -> (r: String)
    ensures
        r@ == query@,
{
    let mut s = String::new();
    let mut i: usize = 0;
    while i < query.len()
        invariant
            0 <= i <= query@.len(),
            s@ == query@.take(i as int),
        decreases query@.len() - i,
    {
        push_char(&mut s, query[i]);
        proof {
            assert(query@.take(i as int).push(query@[i as int]) =~= query@.take(i as int + 1));
        }
        i += 1;
    }
    proof {
        assert(query@.take(i as int) =~= query@);
    }
    s
}

/// Whether two character vectors hold the same characters.
fn chars_eq(a: &Vec<char>, b: &[char]) -> (r: bool)
    ensures
        r == (a@ == b@),
{
    if a.len() != b.len() {
        proof {
            assert(a@.len() != b@.len());
        }
        return false;
    }
    let n = a.len();
    let mut i: usize = 0;
    while i < n
        invariant
            n == a@.len() == b@.len(),
            0 <= i <= n,
            forall|j: int| 0 <= j < i ==> a@[j] == b@[j],
        decreases n - i,
    {
        if a[i] != b[i] {
            return false;
        }
        i += 1;
    }
    proof {
        assert(a@ =~= b@);
    }
    true
}

/// An owned copy of a query slice.
fn to_char_vec(q: &[char]) -> (r: Vec<char>)
    ensures
        r@ == q@,
{
    let mut v: Vec<char> = Vec::new();
    let mut i: usize = 0;
    while i < q.len()
        invariant
            0 <= i <= q@.len(),
            v@ == q@.take(i as int),
        decreases q@.len() - i,
    {
        v.push(q[i]);
        proof {
            assert(q@.take(i as int).push(q@[i as int]) =~= q@.take(i as int + 1));
        }
        i += 1;
    }
    proof {
        assert(q@.take(i as int) =~= q@);
    }
    v
}

/// An owned copy of a result list.
fn clone_scores<'a>(v: &Vec<Score<'a>>) -> (r: Vec<Score<'a>>)
    ensures
        r@ == v@,
{
    let mut out: Vec<Score<'a>> = Vec::new();
    let mut i: usize = 0;
    let n = v.len();
    while i < n
        invariant
            n == v@.len(),
            0 <= i <= n,
            out@ == v@.take(i as int),
        decreases n - i,
    {
        out.push(v[i]);
        proof {
            assert(v@.take(i as int).push(v@[i as int]) =~= v@.take(i as int + 1));
        }
        i += 1;
    }
    proof {
        assert(v@.take(n as int) =~= v@);
    }
    out
}

/// The per-query memo of ranked result lists over one record set. Entries
/// are only ever inserted, each key once; each entry holds exactly the
/// ranked result list of scoring every record directly against its key.
pub struct ScoreCache<'a> {
    pub lines: &'a Vec<Line>,
    pub entries: Vec<(Vec<char>, Vec<Score<'a>>)>,
}

impl<'a> ScoreCache<'a> {
    /// An entry holds the ranked result list of its key.
    pub open spec fn entry_ok(self, i: int) -> bool {
        &&& scores_data(self.entries@[i].1@) == ranked_data(
            self.lines@,
            lowered(self.entries@[i].0@),
        )
        &&& forall|j: int|
            0 <= j < self.entries@[i].1@.len() ==> score_ok(#[trigger] self.entries@[i].1@[j])
    }

    /// The record set is well formed, every entry is the ranked result list
    /// of its key, and keys are never repeated.
    pub open spec fn wf(self) -> bool {
        &&& lines_wf(self.lines@)
        &&& forall|i: int| 0 <= i < self.entries@.len() ==> self.entry_ok(i)
        &&& forall|i: int, j: int|
            0 <= i < j < self.entries@.len() ==> self.entries@[i].0@ != self.entries@[j].0@
    }

    /// Whether a query has a cached list.
    pub open spec fn contains_key(self, k: Seq<char>) -> bool {
        exists|i: int| 0 <= i < self.entries@.len() && (#[trigger] self.entries@[i]).0@ == k
    }

    /// The empty query is cached, so the ancestor walk always terminates.
    pub open spec fn has_empty(self) -> bool {
        self.contains_key(Seq::<char>::empty())
    }

    /// An empty cache over a record set.
    pub fn new(lines: &'a Vec<Line>) -> (r: Self)
        requires
            lines_wf(lines@),
        ensures
            r.wf(),
            r.lines == lines,
            r.entries@.len() == 0,
    {
        ScoreCache { lines, entries: Vec::new() }
    }

    /// Caches a ranked list under a new key.
    pub fn insert(&mut self, key: Vec<char>, scores: Vec<Score<'a>>)
        requires
            old(self).wf(),
            !old(self).contains_key(key@),
            scores_data(scores@) == ranked_data(old(self).lines@, lowered(key@)),
            forall|j: int| 0 <= j < scores@.len() ==> score_ok(#[trigger] scores@[j]),
        ensures
            final(self).wf(),
            final(self).lines == old(self).lines,
            final(self).entries@ == old(self).entries@.push((key, scores)),
            final(self).contains_key(key@),
            forall|k: Seq<char>|
                old(self).contains_key(k) ==> final(self).contains_key(k),
    {
        let ghost n = self.entries@.len() as int;
        self.entries.push((key, scores));
        proof {
            assert(self.entries@[n] == (key, scores));
            assert forall|i: int| 0 <= i < self.entries@.len() implies self.entry_ok(i) by {
                if i < n {
                    assert(old(self).entry_ok(i));
                    assert(self.entries@[i] == old(self).entries@[i]);
                }
            }
            assert forall|k: Seq<char>|
                old(self).contains_key(k) implies final(self).contains_key(k) by {
                let w = choose|w: int|
                    0 <= w < old(self).entries@.len() && old(self).entries@[w].0@ == k;
                assert(self.entries@[w].0@ == k);
            }
        }
    }
}

/// The position of a key's entry, if cached.
fn find_entry<'a>(map: &ScoreCache<'a>, key: &[char]) -> (r: Option<usize>)
    ensures
        match r {
            Some(i) => i < map.entries@.len() && map.entries@[i as int].0@ == key@,
            None => !map.contains_key(key@),
        },
{
    let n = map.entries.len();
    let mut i: usize = 0;
    while i < n
        invariant
            n == map.entries@.len(),
            0 <= i <= n,
            forall|j: int| 0 <= j < i ==> (#[trigger] map.entries@[j]).0@ != key@,
        decreases n - i,
    {
        if chars_eq(&map.entries[i].0, key) {
            return Some(i);
        }
        i += 1;
    }
    None
}

/// Resolves a query against the cache. An exact hit returns the cached
/// list unchanged. On a miss, trailing characters are removed until a
/// cached ancestor is found (the empty query is always cached), only that
/// ancestor's records are rescored against the full query, the outcome is
/// ranked and cached under the full query. Either way the result is
/// exactly the ranked list of scoring every record directly.
pub fn get_scores<'a>(map: &mut ScoreCache<'a>, query: &[char]) -> (r: Vec<Score<'a>>)
    requires
        old(map).wf(),
        old(map).has_empty(),
    ensures
        final(map).wf(),
        final(map).has_empty(),
        final(map).lines == old(map).lines,
        final(map).contains_key(query@),
        forall|k: Seq<char>| old(map).contains_key(k) ==> final(map).contains_key(k),
        old(map).entries@.len() <= final(map).entries@.len(),
        forall|i: int|
            0 <= i < old(map).entries@.len() ==> final(map).entries@[i] == old(
                map,
            ).entries@[i],
        scores_data(r@) == ranked_data(old(map).lines@, lowered(query@)),
        forall|i: int| 0 <= i < r@.len() ==> score_ok(#[trigger] r@[i]),
{
    if let Some(i) = find_entry(map, query) {
        proof {
            assert(map.entry_ok(i as int));
        }
        return clone_scores(&map.entries[i].1);
    }
    let mut tmp: Vec<char> = to_char_vec(query);
    loop
        invariant
            map == old(map),
            map.wf(),
            map.has_empty(),
            !map.contains_key(query@),
            tmp@.len() <= query@.len(),
            tmp@ == query@.take(tmp@.len() as int),
        decreases tmp@.len(),
    {
        let ghost pre_len = tmp@.len();
        tmp.pop();
        proof {
            assert(tmp@ =~= query@.take(tmp@.len() as int));
        }
        if let Some(ai) = find_entry(map, tmp.as_slice()) {
            proof {
                assert(map.entry_ok(ai as int));
            }
            let qv = to_char_vec(query);
            let mut new_scores = par_rescore(&map.entries[ai].1, &qv);
            sort_scores(&mut new_scores);
            proof {
                let lines = map.lines@;
                let m = tmp@.len() as int;
                let anc = map.entries@[ai as int].1@;
                let anc_lines = anc.map_values(|s: Score<'a>| *s.line);
                lemma_lowered_take(query@, m);
                assert forall|i: int|
                    0 <= i < anc_lines.len() implies anc_lines[i] == ranked_data(
                    lines,
                    lowered(query@).take(m),
                )[i].3 by {
                    assert(scores_data(anc)[i] == score_data(anc[i]));
                }
                lemma_cache_equiv(
                    lines,
                    anc_lines,
                    lowered(query@).take(m),
                    lowered(query@),
                    m,
                );
            }
            let stored = clone_scores(&new_scores);
            let key = to_char_vec(query);
            map.insert(key, stored);
            return new_scores;
        }
        proof {
            if tmp@.len() == 0 {
                assert(tmp@ =~= Seq::<char>::empty());
                assert(map.contains_key(Seq::<char>::empty()));
                assert(false);
            }
            assert(tmp@.len() < pre_len);
        }
    }
}

/// Scores every record of the set directly against the query and ranks
/// the result: the reference path the cache is held to.
pub fn score_all<'a>(lines: &'a Vec<Line>, query: &[char]) -> (r: Vec<Score<'a>>)
    requires
        lines_wf(lines@),
    ensures
        scores_data(r@) == ranked_data(lines@, lowered(query@)),
        forall|i: int| 0 <= i < r@.len() ==> score_ok(#[trigger] r@[i]),
{
    let qv = to_char_vec(query);
    let mut scores = par_score_all(lines, &qv);
    sort_scores(&mut scores);
    proof {
        lemma_sort_data_sorted(match_data(lines@, lowered(query@)));
    }
    scores
}

} // verus!
