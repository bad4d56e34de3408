//! The scorer: case-insensitive subsequence matching with a match-kind
//! state machine, producing a match span and a points value (lower is
//! better), plus the comparator that orders result lists.
use crate::line::{byte_len, line_eq, Line};
use crate::unicode::{alphanumeric, char_lower, is_word_char, lowercase_char};
use core::cmp::Ordering;
use vstd::prelude::*;

verus! {

/// How a query character's position relates to the previous matched one:
/// directly adjacent, after a word boundary, or anywhere else.
#[derive(Debug, Clone, Copy, PartialEq, Eq, Structural)]
pub enum MatchKind {
    Sequential,
    Boundary,
    Normal,
}

/// A match of a query against one record: the `[first, last)` byte span of
/// the matched region and its points. `points == usize::MAX` is the
/// sentinel for the empty query, which matches everything.
#[derive(Debug, Clone, Copy)]
pub struct Score<'a> {
    pub first: usize,
    pub last: usize,
    pub points: usize,
    pub line: &'a Line,
}

/// The query, with each character lowercased as the scorer sees it.
pub open spec fn lowered(q: Seq<char>) -> Seq<char> {
    q.map_values(|c: char| char_lower(c))
}

/// The first position at or past `from` whose offset lies strictly past
/// `after` and whose character is `c`.
pub open spec fn find_from(pairs: Seq<(usize, char)>, c: char, after: int, from: int) -> Option<
    int,
>
    decreases pairs.len() - from,
{
    if from < 0 || from >= pairs.len() {
        None
    } else if pairs[from].0 > after && pairs[from].1 == c {
        Some(from)
    } else {
        find_from(pairs, c, after, from + 1)
    }
}

/// What a successful `find_from` scan means: the position it returns is in
/// range, lies at or past `from`, and satisfies both conditions.
pub proof fn lemma_find_from_some(
    pairs: Seq<(usize, char)>,
    c: char,
    after: int,
    from: int,
    k: int,
)
    requires
        find_from(pairs, c, after, from) == Some(k),
    ensures
        from <= k < pairs.len(),
        pairs[k].0 > after,
        pairs[k].1 == c,
    decreases pairs.len() - from,
{
    if 0 <= from < pairs.len() && !(pairs[from].0 > after && pairs[from].1 == c) {
        lemma_find_from_some(pairs, c, after, from + 1, k);
    }
}

/// One extension pass of the match-kind state machine over the remaining
/// query characters `cs[i..]`, from offset `last` with `points` charged so
/// far: each required character is found strictly past the previous one, a
/// run of adjacent or boundary placements is charged once, and any other
/// placement is charged the distance skipped. Yields the final points and
/// the offset of the last matched character, or nothing if some character
/// cannot be found.
pub open spec fn extend_from(
    pairs: Seq<(usize, char)>,
    cs: Seq<char>,
    i: int,
    last: int,
    kind: MatchKind,
    points: int,
) -> Option<(int, int)>
    decreases cs.len() - i,
{
    if i < 0 || i >= cs.len() {
        Some((points, last))
    } else {
        match find_from(pairs, cs[i], last, 0) {
            None => None,
            Some(k) => {
                let idx = pairs[k].0 as int;
                if idx == last + 1 {
                    if kind != MatchKind::Sequential {
                        extend_from(pairs, cs, i + 1, idx, MatchKind::Sequential, points + 1)
                    } else {
                        extend_from(pairs, cs, i + 1, idx, MatchKind::Sequential, points)
                    }
                } else if idx < pairs.len() && !is_word_char(pairs[idx - 1].1) {
                    if kind != MatchKind::Boundary {
                        extend_from(pairs, cs, i + 1, idx, MatchKind::Boundary, points + 1)
                    } else {
                        extend_from(pairs, cs, i + 1, idx, MatchKind::Boundary, points)
                    }
                } else {
                    extend_from(pairs, cs, i + 1, idx, MatchKind::Normal, points + (idx - last))
                }
            },
        }
    }
}

/// The extension attempt that starts at offset `start`: one point charged
/// up front, in `Normal` state.
pub open spec fn find_end_spec(pairs: Seq<(usize, char)>, cs: Seq<char>, start: int) -> Option<
    (int, int),
> {
    extend_from(pairs, cs, 0, start, MatchKind::Normal, 1)
}

/// The scan over start positions for a multi-character query: every
/// occurrence of the first query character is tried in order, the best
/// (lowest-points) extension is kept, and the scan stops at the first
/// start whose extension fails.
pub open spec fn multi_score(
    pairs: Seq<(usize, char)>,
    q0: char,
    rest: Seq<char>,
    from: int,
    best: (int, int, int),
    found: bool,
) -> Option<(int, int, int)>
    decreases pairs.len() - from,
{
    if from < 0 || from >= pairs.len() {
        if found {
            Some(best)
        } else {
            None
        }
    } else if pairs[from].1 == q0 {
        match find_end_spec(pairs, rest, pairs[from].0 as int) {
            None => if found {
                Some(best)
            } else {
                None
            },
            Some(pl) => {
                let nb = if pl.1 != 0 && pl.0 < best.2 {
                    (pairs[from].0 as int, pl.1 + 1, pl.0)
                } else {
                    best
                };
                multi_score(pairs, q0, rest, from + 1, nb, true)
            },
        }
    } else {
        multi_score(pairs, q0, rest, from + 1, best, found)
    }
}

/// What scoring a record against the (lowered) query `q` yields: the empty
/// query matches trivially with the sentinel points; a single character
/// matches its first occurrence with one point; a longer query goes
/// through the start-position scan. The triple is `(first, last, points)`.
pub open spec fn spec_score(pairs: Seq<(usize, char)>, q: Seq<char>) -> Option<(int, int, int)> {
    if q.len() == 0 {
        Some((0, 0, usize::MAX as int))
    } else if q.len() == 1 {
        match find_from(pairs, q[0], -1, 0) {
            Some(k) => Some((pairs[k].0 as int, pairs[k].0 as int + 1, 1)),
            None => None,
        }
    } else {
        multi_score(pairs, q[0], q.drop_first(), 0, (0, 0, usize::MAX as int), false)
    }
}

/// The `(first, last, points, record)` content of a score, which pins the
/// whole value.
pub open spec fn score_data<'a>(s: Score<'a>) -> (int, int, int, Line) {
    (s.first as int, s.last as int, s.points as int, *s.line)
}

/// A usable score: its span is well formed and its record is well formed.
pub open spec fn score_ok<'a>(s: Score<'a>) -> bool {
    &&& s.wf()
    &&& s.line.wf()
}

/// The comparator's verdict on two integers.
pub open spec fn ord_of(x: int, y: int) -> Ordering {
    if x < y {
        Ordering::Less
    } else if x == y {
        Ordering::Equal
    } else {
        Ordering::Greater
    }
}

/// The total order over matches: points ascending, then match span length
/// ascending, then record byte length ascending.
pub open spec fn cmp_data(a: (int, int, int, Line), b: (int, int, int, Line)) -> Ordering {
    if a.2 == b.2 {
        if a.1 - a.0 == b.1 - b.0 {
            ord_of(byte_len(a.3.buf@), byte_len(b.3.buf@))
        } else {
            ord_of(a.1 - a.0, b.1 - b.0)
        }
    } else {
        ord_of(a.2, b.2)
    }
}

impl<'a> Score<'a> {
    /// A span is well formed when its end does not precede its start.
    pub open spec fn wf(self) -> bool {
        self.first <= self.last
    }

    /// The sentinel score a scan starts from: empty span, maximal points.
    pub fn new(line: &'a Line) -> (r: Self)
        ensures
            r.first == 0,
            r.last == 0,
            r.points == usize::MAX,
            r.line == line,
    {
        Self { first: 0, last: 0, points: usize::MAX, line }
    }

    /// The length of the matched span.
    pub fn range_length(&self) -> (r: usize)
        requires
            self.wf(),
        ensures
            r == self.last - self.first,
    {
        self.last - self.first
    }

    pub fn cmp(a: &Score<'a>, b: &Score<'a>) -> (r: Ordering)
        requires
            a.wf(),
            b.wf(),
        ensures
            r == cmp_data(score_data(*a), score_data(*b)),
    {
        if a.points == b.points {
            if a.range_length() == b.range_length() {
                ord_usize(a.line.len(), b.line.len())
            } else {
                ord_usize(a.range_length(), b.range_length())
            }
        } else {
            ord_usize(a.points, b.points)
        }
    }
}

fn ord_usize(x: usize, y: usize) -> (r: Ordering)
    ensures
        r == ord_of(x as int, y as int),
{
    if x < y {
        Ordering::Less
    } else if x == y {
        Ordering::Equal
    } else {
        Ordering::Greater
    }
}

/// The position scan behind `find_from` with `after == -1`: the first
/// occurrence of `c`, with no offset condition.
fn find_char(pairs: &Vec<(usize, char)>, c: char) -> (r: Option<usize>)
    ensures
        match r {
            Some(k) => find_from(pairs@, c, -1, 0) == Some(k as int) && k < pairs@.len(),
            None => find_from(pairs@, c, -1, 0) is None,
        },
{
    let n = pairs.len();
    let mut k: usize = 0;
    while k < n
        invariant
            n == pairs@.len(),
            0 <= k <= n,
            find_from(pairs@, c, -1, 0) == find_from(pairs@, c, -1, k as int),
        decreases n - k,
    {
        let p = pairs[k];
        if p.1 == c {
            return Some(k);
        }
        k += 1;
    }
    None
}

/// The position scan behind `find_from`: the first occurrence of `c` whose
/// offset lies strictly past `after`.
fn find_char_after(pairs: &Vec<(usize, char)>, c: char, after: usize) -> (r: Option<usize>)
    ensures
        match r {
            Some(k) => find_from(pairs@, c, after as int, 0) == Some(k as int) && k
                < pairs@.len(),
            None => find_from(pairs@, c, after as int, 0) is None,
        },
{
    let n = pairs.len();
    let mut k: usize = 0;
    while k < n
        invariant
            n == pairs@.len(),
            0 <= k <= n,
            find_from(pairs@, c, after as int, 0) == find_from(pairs@, c, after as int, k as int),
        decreases n - k,
    {
        let p = pairs[k];
        if p.0 > after && p.1 == c {
            return Some(k);
        }
        k += 1;
    }
    None
}

/// Extends a candidate match rightwards from `start`: finds each remaining
/// query character in order, charging points by match kind. Returns the
/// points and the offset of the last matched character.
pub fn find_end_of_match(line: &Line, chars: &[char], start: usize) -> (r: Option<(usize, usize)>)
    requires
        line.wf(),
        start < usize::MAX,
    ensures
        match r {
            Some(pl) => {
                &&& find_end_spec(line.low_char_vec@, lowered(chars@), start as int) == Some(
                    (pl.0 as int, pl.1 as int),
                )
                &&& pl.1 < usize::MAX
                &&& pl.1 >= start
            },
            None => find_end_spec(line.low_char_vec@, lowered(chars@), start as int) is None,
        },
{
    let ghost cs = lowered(chars@);

    let mut lowq: Vec<char> = Vec::new();
    let mut qi: usize = 0;
    while qi < chars.len()
        invariant
            0 <= qi <= chars@.len(),
            lowq@.len() == qi,
            forall|j: int| 0 <= j < qi ==> #[trigger] lowq@[j] == char_lower(chars@[j]),
        decreases chars@.len() - qi,
    {
        lowq.push(lowercase_char(chars[qi]));
        qi += 1;
    }
    proof {
        assert(lowq@ =~= cs);
    }

    let mut last_index = start;
    let mut score: usize = 1;
    let mut kind = MatchKind::Normal;
    let mut i: usize = 0;
    let n = lowq.len();
    while i < n
        invariant
            line.wf(),
            cs == lowered(chars@),
            lowq@ == cs,
            n == cs.len(),
            0 <= i <= n,
            last_index < usize::MAX,
            last_index >= start,
            score <= last_index + 1,
            extend_from(line.low_char_vec@, cs, i as int, last_index as int, kind, score as int)
                == find_end_spec(line.low_char_vec@, cs, start as int),
        decreases n - i,
    {
        let c = lowq[i];
        match find_char_after(&line.low_char_vec, c, last_index) {
            None => {
                proof {
                    assert(extend_from(
                        line.low_char_vec@,
                        cs,
                        i as int,
                        last_index as int,
                        kind,
                        score as int,
                    ) is None);
                }
                return None;
            },
            Some(k) => {
                proof {
                    lemma_find_from_some(
                        line.low_char_vec@,
                        c,
                        last_index as int,
                        0,
                        k as int,
                    );
                    assert(line.low_char_vec@[k as int].0 < usize::MAX);
                }
                let index = line.low_char_vec[k].0;
                if index == last_index + 1 {
                    if kind != MatchKind::Sequential {
                        kind = MatchKind::Sequential;
                        score += 1;
                    }
                } else if index < line.low_char_vec.len() && !alphanumeric(
                    line.low_char_vec[index - 1].1,
                ) {
                    if kind != MatchKind::Boundary {
                        kind = MatchKind::Boundary;
                        score += 1;
                    }
                } else {
                    kind = MatchKind::Normal;
                    score = score + (index - last_index);
                }
                last_index = index;
                i += 1;
            },
        }
    }
    Some((score, last_index))
}

/// Scores one record against a query. The empty query always matches with
/// the sentinel points; a single character matches its first
/// (case-insensitive) occurrence; a longer query tries every occurrence of
/// its first character as a start, keeps the best extension, and stops at
/// the first failing start.
pub fn calculate_score<'a>(line: &'a Line, query: &[char]) -> (r: Option<Score<'a>>)
    requires
        line.wf(),
    ensures
        match r {
            Some(s) => {
                &&& spec_score(line.low_char_vec@, lowered(query@)) == Some(
                    (s.first as int, s.last as int, s.points as int),
                )
                &&& s.line == line
                &&& s.wf()
            },
            None => spec_score(line.low_char_vec@, lowered(query@)) is None,
        },
{
    let ghost lq = lowered(query@);
    if query.len() == 0 {
        Some(Score::new(line))
    } else if query.len() == 1 {
        let q0 = lowercase_char(query[0]);
        proof {
            assert(lq[0] == char_lower(query@[0]));
        }
        match find_char(&line.low_char_vec, q0) {
            Some(k) => {
                let index = line.low_char_vec[k].0;
                proof {
                    assert(line.low_char_vec@[k as int].0 < usize::MAX);
                }
                Some(Score { first: index, last: index + 1, points: 1, line })
            },
            None => None,
        }
    } else {
        let q0 = lowercase_char(query[0]);
        let tail = &query[1..query.len()];
        proof {
            assert(lq[0] == char_lower(query@[0]));
            assert(lq.drop_first() =~= lowered(tail@));
        }
        let mut best_first: usize = 0;
        let mut best_last: usize = 0;
        let mut best_points: usize = usize::MAX;
        let mut found = false;
        let mut k: usize = 0;
        let n = line.low_char_vec.len();
        while k < n
            invariant_except_break
                line.wf(),
                n == line.low_char_vec@.len(),
                0 <= k <= n,
                lq == lowered(query@),
                query@.len() >= 2,
                q0 == lq[0],
                lq.len() >= 2,
                lq.drop_first() == lowered(tail@),
                tail@.len() >= 1,
                best_first <= best_last,
                multi_score(
                    line.low_char_vec@,
                    lq[0],
                    lq.drop_first(),
                    k as int,
                    (best_first as int, best_last as int, best_points as int),
                    found,
                ) == multi_score(
                    line.low_char_vec@,
                    lq[0],
                    lq.drop_first(),
                    0,
                    (0, 0, usize::MAX as int),
                    false,
                ),
            ensures
                best_first <= best_last,
                multi_score(
                    line.low_char_vec@,
                    lq[0],
                    lq.drop_first(),
                    0,
                    (0, 0, usize::MAX as int),
                    false,
                ) == if found {
                    Some((best_first as int, best_last as int, best_points as int))
                } else {
                    None::<(int, int, int)>
                },
            decreases n - k,
        {
            let ghost pre_best = (best_first as int, best_last as int, best_points as int);
            let ghost pre_found = found;
            let pair = line.low_char_vec[k];
            if pair.1 == q0 {
                proof {
                    assert(line.low_char_vec@[k as int].0 < usize::MAX);
                }
                match find_end_of_match(line, tail, pair.0) {
                    Some(pl) => {
                        found = true;
                        if pl.1 != 0 && pl.0 < best_points {
                            best_first = pair.0;
                            best_last = pl.1 + 1;
                            best_points = pl.0;
                        }
                        proof {
                            assert(multi_score(
                                line.low_char_vec@,
                                lq[0],
                                lq.drop_first(),
                                k as int,
                                pre_best,
                                pre_found,
                            ) == multi_score(
                                line.low_char_vec@,
                                lq[0],
                                lq.drop_first(),
                                k as int + 1,
                                (best_first as int, best_last as int, best_points as int),
                                true,
                            ));
                        }
                    },
                    None => {
                        proof {
                            assert(multi_score(
                                line.low_char_vec@,
                                lq[0],
                                lq.drop_first(),
                                k as int,
                                pre_best,
                                pre_found,
                            ) == if found {
                                Some(pre_best)
                            } else {
                                None::<(int, int, int)>
                            });
                        }
                        break ;
                    },
                }
            }
            k += 1;
        }
        if found {
            Some(Score { first: best_first, last: best_last, points: best_points, line })
        } else {
            None
        }
    }
}

/// Greedy subsequence matching: each of `cs[i..]` is found at the first
/// offset strictly past the previous one. Scoring succeeds exactly when
/// this holds of the whole query.
pub open spec fn matched_from(
    pairs: Seq<(usize, char)>,
    cs: Seq<char>,
    i: int,
    after: int,
) -> bool
    decreases cs.len() - i,
{
    if i < 0 || i >= cs.len() {
        true
    } else {
        match find_from(pairs, cs[i], after, 0) {
            None => false,
            Some(k) => matched_from(pairs, cs, i + 1, pairs[k].0 as int),
        }
    }
}

/// Whether a record (given by its offset pairs) matches the lowered query
/// as a subsequence at all.
pub open spec fn matches(pairs: Seq<(usize, char)>, q: Seq<char>) -> bool {
    matched_from(pairs, q, 0, -1)
}

/// A failed `find_from` scan means no position at or past `from` satisfies
/// both conditions.
proof fn lemma_find_from_none(pairs: Seq<(usize, char)>, c: char, after: int, from: int)
    requires
        0 <= from,
        find_from(pairs, c, after, from) is None,
    ensures
        forall|j: int|
            from <= j < pairs.len() ==> !(pairs[j].0 > after && #[trigger] pairs[j].1 == c),
    decreases pairs.len() - from,
{
    if 0 <= from < pairs.len() {
        lemma_find_from_none(pairs, c, after, from + 1);
    }
}

/// A successful `find_from` scan returns the first such position: nothing
/// earlier satisfies both conditions.
proof fn lemma_find_from_first(pairs: Seq<(usize, char)>, c: char, after: int, from: int, k: int)
    requires
        0 <= from,
        find_from(pairs, c, after, from) == Some(k),
    ensures
        forall|j: int| from <= j < k ==> !(pairs[j].0 > after && #[trigger] pairs[j].1 == c),
    decreases pairs.len() - from,
{
    if 0 <= from < pairs.len() && !(pairs[from].0 > after && pairs[from].1 == c) {
        lemma_find_from_first(pairs, c, after, from + 1, k);
    }
}

/// Whether an extension succeeds depends only on where it stands, not on
/// the points charged or the state it is in.
proof fn lemma_extend_matched(
    pairs: Seq<(usize, char)>,
    cs: Seq<char>,
    i: int,
    last: int,
    kind: MatchKind,
    points: int,
)
    ensures
        extend_from(pairs, cs, i, last, kind, points) is Some <==> matched_from(
            pairs,
            cs,
            i,
            last,
        ),
    decreases cs.len() - i,
{
    if i < 0 || i >= cs.len() {
    } else {
        match find_from(pairs, cs[i], last, 0) {
            None => {},
            Some(k) => {
                let idx = pairs[k].0 as int;
                if idx == last + 1 {
                    if kind != MatchKind::Sequential {
                        lemma_extend_matched(pairs, cs, i + 1, idx, MatchKind::Sequential,
                            points + 1);
                    } else {
                        lemma_extend_matched(pairs, cs, i + 1, idx, MatchKind::Sequential,
                            points);
                    }
                } else if idx < pairs.len() && !is_word_char(pairs[idx - 1].1) {
                    if kind != MatchKind::Boundary {
                        lemma_extend_matched(pairs, cs, i + 1, idx, MatchKind::Boundary,
                            points + 1);
                    } else {
                        lemma_extend_matched(pairs, cs, i + 1, idx, MatchKind::Boundary, points);
                    }
                } else {
                    lemma_extend_matched(pairs, cs, i + 1, idx, MatchKind::Normal,
                        points + (idx - last));
                }
            },
        }
    }
}

/// Walking the query tail from its own start is walking the query from its
/// second character.
proof fn lemma_matched_shift(pairs: Seq<(usize, char)>, q: Seq<char>, i: int, after: int)
    requires
        q.len() >= 1,
        0 <= i,
    ensures
        matched_from(pairs, q, i + 1, after) == matched_from(pairs, q.drop_first(), i, after),
    decreases q.len() - i,
{
    if i + 1 >= q.len() {
    } else {
        assert(q.drop_first()[i] == q[i + 1]);
        match find_from(pairs, q[i + 1], after, 0) {
            None => {},
            Some(k) => {
                lemma_matched_shift(pairs, q, i + 1, pairs[k].0 as int);
            },
        }
    }
}

/// The start scan never fails once some start has succeeded.
proof fn lemma_multi_found(
    pairs: Seq<(usize, char)>,
    q0: char,
    rest: Seq<char>,
    from: int,
    best: (int, int, int),
)
    ensures
        multi_score(pairs, q0, rest, from, best, true) is Some,
    decreases pairs.len() - from,
{
    if from < 0 || from >= pairs.len() {
    } else if pairs[from].1 == q0 {
        match find_end_spec(pairs, rest, pairs[from].0 as int) {
            None => {},
            Some(pl) => {
                let nb = if pl.1 != 0 && pl.0 < best.2 {
                    (pairs[from].0 as int, pl.1 + 1, pl.0)
                } else {
                    best
                };
                lemma_multi_found(pairs, q0, rest, from + 1, nb);
            },
        }
    } else {
        lemma_multi_found(pairs, q0, rest, from + 1, best);
    }
}

/// Positions that do not hold the first query character do not change the
/// start scan.
proof fn lemma_multi_skip(
    pairs: Seq<(usize, char)>,
    q0: char,
    rest: Seq<char>,
    from: int,
    to: int,
    best: (int, int, int),
    found: bool,
)
    requires
        0 <= from <= to <= pairs.len(),
        forall|j: int| from <= j < to ==> #[trigger] pairs[j].1 != q0,
    ensures
        multi_score(pairs, q0, rest, from, best, found) == multi_score(
            pairs,
            q0,
            rest,
            to,
            best,
            found,
        ),
    decreases to - from,
{
    if from < to {
        lemma_multi_skip(pairs, q0, rest, from + 1, to, best, found);
    }
}

/// Scoring succeeds exactly when the record matches the query greedily.
pub proof fn lemma_score_matches(pairs: Seq<(usize, char)>, q: Seq<char>)
    ensures
        spec_score(pairs, q) is Some <==> matches(pairs, q),
{
    if q.len() == 0 {
    } else if q.len() == 1 {
        match find_from(pairs, q[0], -1, 0) {
            None => {
                assert(!matched_from(pairs, q, 0, -1));
            },
            Some(k) => {
                assert(matched_from(pairs, q, 1, pairs[k].0 as int));
                assert(matched_from(pairs, q, 0, -1));
            },
        }
    } else {
        let rest = q.drop_first();
        match find_from(pairs, q[0], -1, 0) {
            None => {
                assert(!matched_from(pairs, q, 0, -1));
                lemma_find_from_none(pairs, q[0], -1, 0);
                assert forall|j: int| 0 <= j < pairs.len() implies #[trigger] pairs[j].1
                    != q[0] by {
                    assert(pairs[j].0 > -1);
                }
                lemma_multi_skip(
                    pairs,
                    q[0],
                    rest,
                    0,
                    pairs.len() as int,
                    (0, 0, usize::MAX as int),
                    false,
                );
            },
            Some(k0) => {
                lemma_find_from_some(pairs, q[0], -1, 0, k0);
                lemma_find_from_first(pairs, q[0], -1, 0, k0);
                let idx0 = pairs[k0].0 as int;
                assert(matched_from(pairs, q, 0, -1) == matched_from(pairs, q, 1, idx0));
                assert forall|j: int| 0 <= j < k0 implies #[trigger] pairs[j].1 != q[0] by {
                    assert(pairs[j].0 > -1);
                }
                lemma_multi_skip(pairs, q[0], rest, 0, k0, (0, 0, usize::MAX as int), false);
                lemma_matched_shift(pairs, q, 0, idx0);
                lemma_extend_matched(pairs, rest, 0, idx0, MatchKind::Normal, 1);
                match find_end_spec(pairs, rest, idx0) {
                    None => {},
                    Some(pl) => {
                        let nb = if pl.1 != 0 && pl.0 < usize::MAX as int {
                            (idx0, pl.1 + 1, pl.0)
                        } else {
                            (0, 0, usize::MAX as int)
                        };
                        lemma_multi_found(pairs, q[0], rest, k0 + 1, nb);
                    },
                }
            },
        }
    }
}

/// Appending characters to the query can only lose matches: a record whose
/// greedy walk covers the longer query covers the shorter one.
proof fn lemma_matched_push(pairs: Seq<(usize, char)>, q: Seq<char>, c: char, i: int, after: int)
    requires
        matched_from(pairs, q.push(c), i, after),
    ensures
        matched_from(pairs, q, i, after),
    decreases q.len() - i,
{
    if i < 0 || i >= q.len() {
    } else {
        assert(q.push(c)[i] == q[i]);
        match find_from(pairs, q[i], after, 0) {
            None => {},
            Some(k) => {
                lemma_matched_push(pairs, q, c, i + 1, pairs[k].0 as int);
            },
        }
    }
}

/// Offsets strictly increase along the pair list, as they do for the pairs
/// of any record.
pub open spec fn offsets_increasing(pairs: Seq<(usize, char)>) -> bool {
    forall|i: int, j: int| 0 <= i < j < pairs.len() ==> pairs[i].0 < pairs[j].0
}

/// A scan succeeds whenever some position satisfies it.
proof fn lemma_find_from_exists(
    pairs: Seq<(usize, char)>,
    c: char,
    after: int,
    from: int,
    j: int,
)
    requires
        0 <= from <= j < pairs.len(),
        pairs[j].0 > after,
        pairs[j].1 == c,
    ensures
        find_from(pairs, c, after, from) is Some,
    decreases pairs.len() - from,
{
    if 0 <= from < pairs.len() && !(pairs[from].0 > after && pairs[from].1 == c) {
        lemma_find_from_exists(pairs, c, after, from + 1, j);
    }
}

/// Loosening the offset bound moves a successful scan to the same position
/// or an earlier one.
proof fn lemma_find_from_mono(
    pairs: Seq<(usize, char)>,
    c: char,
    a1: int,
    a2: int,
    k2: int,
)
    requires
        a1 <= a2,
        find_from(pairs, c, a2, 0) == Some(k2),
    ensures
        find_from(pairs, c, a1, 0) is Some,
        find_from(pairs, c, a1, 0)->Some_0 <= k2,
{
    lemma_find_from_some(pairs, c, a2, 0, k2);
    lemma_find_from_exists(pairs, c, a1, 0, k2);
    let k1 = find_from(pairs, c, a1, 0)->Some_0;
    lemma_find_from_some(pairs, c, a1, 0, k1);
    lemma_find_from_first(pairs, c, a1, 0, k1);
    if k1 > k2 {
        assert(!(pairs[k2].0 > a1 && pairs[k2].1 == c));
        assert(false);
    }
}

/// Walking greedily from a later offset fails whenever walking from an
/// earlier one does.
proof fn lemma_matched_mono(pairs: Seq<(usize, char)>, cs: Seq<char>, i: int, a1: int, a2: int)
    requires
        offsets_increasing(pairs),
        a1 <= a2,
        matched_from(pairs, cs, i, a2),
    ensures
        matched_from(pairs, cs, i, a1),
    decreases cs.len() - i,
{
    if i < 0 || i >= cs.len() {
    } else {
        let k2 = find_from(pairs, cs[i], a2, 0)->Some_0;
        lemma_find_from_some(pairs, cs[i], a2, 0, k2);
        lemma_find_from_mono(pairs, cs[i], a1, a2, k2);
        let k1 = find_from(pairs, cs[i], a1, 0)->Some_0;
        lemma_find_from_some(pairs, cs[i], a1, 0, k1);
        assert(pairs[k1].0 <= pairs[k2].0);
        lemma_matched_mono(pairs, cs, i + 1, pairs[k1].0 as int, pairs[k2].0 as int);
    }
}

/// Abandoning later start positions once one fails to extend loses no
/// match: when the extension fails from one start, it fails from every
/// start at or past it.
pub proof fn lemma_later_starts_fail(
    pairs: Seq<(usize, char)>,
    cs: Seq<char>,
    start1: int,
    start2: int,
)
    requires
        offsets_increasing(pairs),
        start1 <= start2,
        find_end_spec(pairs, cs, start1) is None,
    ensures
        find_end_spec(pairs, cs, start2) is None,
{
    lemma_extend_matched(pairs, cs, 0, start1, MatchKind::Normal, 1);
    lemma_extend_matched(pairs, cs, 0, start2, MatchKind::Normal, 1);
    if matched_from(pairs, cs, 0, start2) {
        lemma_matched_mono(pairs, cs, 0, start1, start2);
    }
}

/// Monotonic narrowing: every record that matches the query extended by
/// one more character also matches the query itself.
pub proof fn lemma_monotonic_narrowing(pairs: Seq<(usize, char)>, q: Seq<char>, c: char)
    requires
        spec_score(pairs, q.push(c)) is Some,
    ensures
        spec_score(pairs, q) is Some,
{
    lemma_score_matches(pairs, q.push(c));
    lemma_score_matches(pairs, q);
    lemma_matched_push(pairs, q, c, 0, -1);
}

/// Monotonic narrowing for one record and a raw query: a record that
/// matches the query with one more character typed also matches the query
/// as it was.
pub proof fn lemma_narrowing_for_record(l: Line, q: Seq<char>, c: char)
    requires
        spec_score(l.low_char_vec@, lowered(q.push(c))) is Some,
    ensures
        spec_score(l.low_char_vec@, lowered(q)) is Some,
{
    assert(lowered(q.push(c)) =~= lowered(q).push(char_lower(c)));
    lemma_monotonic_narrowing(l.low_char_vec@, lowered(q), char_lower(c));
}

/// Every record matches a prefix of a query it matches.
pub proof fn lemma_prefix_narrowing(pairs: Seq<(usize, char)>, q: Seq<char>, m: int)
    requires
        0 <= m <= q.len(),
        spec_score(pairs, q) is Some,
    ensures
        spec_score(pairs, q.take(m)) is Some,
    decreases q.len() - m,
{
    if m == q.len() {
        assert(q.take(m) =~= q);
    } else {
        lemma_prefix_narrowing(pairs, q, m + 1);
        assert(q.take(m + 1) =~= q.take(m).push(q[m]));
        lemma_monotonic_narrowing(pairs, q.take(m), q[m]);
    }
}

/// Empty-query totality: scoring any record against the empty query
/// succeeds, with an empty span and the maximal sentinel points.
pub proof fn lemma_empty_query_total(pairs: Seq<(usize, char)>)
    ensures
        spec_score(pairs, Seq::<char>::empty()) == Some((0int, 0int, usize::MAX as int)),
{
}

impl<'a> PartialEq for Score<'a> {
    fn eq(&self, other: &Score<'a>) -> (r: bool) {
        self.first == other.first && self.last == other.last && self.points == other.points
            && self.line.eq(other.line)
    }
}

impl<'a> vstd::std_specs::cmp::PartialEqSpecImpl for Score<'a> {
    open spec fn obeys_eq_spec() -> bool {
        true
    }

    open spec fn eq_spec(&self, other: &Score<'a>) -> bool {
        &&& self.first == other.first
        &&& self.last == other.last
        &&& self.points == other.points
        &&& line_eq(*self.line, *other.line)
    }
}

} // verus!
