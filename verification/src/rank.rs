//! The total order over match results and the sort that ranks a result
//! list: points ascending, then span length, then record byte length, with
//! ties resolved by the records' load order, so equal-ranked records keep
//! their original relative order and a ranked list is unique.
use crate::line::Line;
use crate::score::{cmp_data, score_data, score_ok, Score};
use core::cmp::Ordering;
use vstd::prelude::*;

verus! {

/// The `(first, last, points, record)` content of one match result.
pub type ScoreData = (int, int, int, Line);

/// The sequence of score contents of a result list.
pub open spec fn scores_data<'a>(s: Seq<Score<'a>>) -> Seq<ScoreData> {
    s.map_values(|x: Score<'a>| score_data(x))
}

/// The strict ranking order: the comparator's verdict, with the records'
/// load order breaking full ties. Two results of one record set never tie
/// under it, so a list sorted by it is unique.
pub open spec fn rank_lt(a: ScoreData, b: ScoreData) -> bool {
    ||| cmp_data(a, b) == Ordering::Less
    ||| (cmp_data(a, b) == Ordering::Equal && a.3.index < b.3.index)
}

/// Sorted by the ranking order: no later element ranks strictly before an
/// earlier one.
pub open spec fn rank_sorted(s: Seq<ScoreData>) -> bool {
    forall|i: int, j: int| 0 <= i < j < s.len() ==> !rank_lt(s[j], s[i])
}

/// Strictly sorted: every earlier element ranks strictly before every
/// later one.
pub open spec fn rank_strict_sorted(s: Seq<ScoreData>) -> bool {
    forall|i: int, j: int| 0 <= i < j < s.len() ==> rank_lt(s[i], s[j])
}

/// Insertion of `x` into `s` after every element it does not strictly
/// outrank: the stable insertion position.
pub open spec fn insert_sorted(x: ScoreData, s: Seq<ScoreData>) -> Seq<ScoreData>
    decreases s.len(),
{
    if s.len() == 0 {
        seq![x]
    } else if rank_lt(x, s.last()) {
        insert_sorted(x, s.drop_last()).push(s.last())
    } else {
        s.push(x)
    }
}

/// The stable insertion sort of a result list by the ranking order.
pub open spec fn sort_data(s: Seq<ScoreData>) -> Seq<ScoreData>
    decreases s.len(),
{
    if s.len() == 0 {
        Seq::empty()
    } else {
        insert_sorted(s.last(), sort_data(s.drop_last()))
    }
}

/// The ranking order is irreflexive, asymmetric, transitive, and total up
/// to full ties, and a full tie under the comparator with equal load order
/// makes the contents' rank keys equal.
pub proof fn lemma_rank_order(a: ScoreData, b: ScoreData, c: ScoreData)
    ensures
        !rank_lt(a, a),
        rank_lt(a, b) ==> !rank_lt(b, a),
        rank_lt(a, b) && rank_lt(b, c) ==> rank_lt(a, c),
        !rank_lt(a, b) && !rank_lt(b, a) ==> cmp_data(a, b) == Ordering::Equal && a.3.index
            == b.3.index,
        !rank_lt(a, b) && !rank_lt(b, a) && rank_lt(b, c) ==> rank_lt(a, c),
        !rank_lt(a, b) && !rank_lt(b, a) && rank_lt(c, b) ==> rank_lt(c, a),
{
}

/// The comparator is a strict weak ordering: equivalence (a full tie) is
/// reflexive, symmetric and transitive; outranking is asymmetric and
/// transitive; and any two results are ordered or tied.
pub proof fn lemma_cmp_strict_weak_order(a: ScoreData, b: ScoreData, c: ScoreData)
    ensures
        cmp_data(a, a) == Ordering::Equal,
        cmp_data(a, b) == Ordering::Less <==> cmp_data(b, a) == Ordering::Greater,
        cmp_data(a, b) == Ordering::Equal <==> cmp_data(b, a) == Ordering::Equal,
        cmp_data(a, b) == Ordering::Less && cmp_data(b, c) == Ordering::Less ==> cmp_data(a, c)
            == Ordering::Less,
        cmp_data(a, b) == Ordering::Equal && cmp_data(b, c) == Ordering::Equal ==> cmp_data(a, c)
            == Ordering::Equal,
        cmp_data(a, b) == Ordering::Equal && cmp_data(b, c) == Ordering::Less ==> cmp_data(a, c)
            == Ordering::Less,
{
}

/// Inserting preserves sortedness.
pub proof fn lemma_insert_sorted_sorted(x: ScoreData, s: Seq<ScoreData>)
    requires
        rank_sorted(s),
    ensures
        rank_sorted(insert_sorted(x, s)),
    decreases s.len(),
{
    if s.len() == 0 {
    } else if rank_lt(x, s.last()) {
        assert(rank_sorted(s.drop_last()));
        lemma_insert_sorted_sorted(x, s.drop_last());
        let t = insert_sorted(x, s.drop_last());
        lemma_insert_sorted_elems(x, s.drop_last());
        assert forall|i: int, j: int|
            0 <= i < j < t.push(s.last()).len() implies !rank_lt(
            t.push(s.last())[j],
            t.push(s.last())[i],
        ) by {
            if j == t.len() {
                let e = t[i];
                assert(s.drop_last().contains(e) || e == x);
                if s.drop_last().contains(e) {
                    let w = choose|w: int|
                        0 <= w < s.drop_last().len() && s.drop_last()[w] == e;
                    assert(s[w] == e);
                    assert(!rank_lt(s.last(), e));
                } else {
                    lemma_rank_order(x, s.last(), s.last());
                }
            }
        }
    } else {
        assert forall|i: int, j: int|
            0 <= i < j < s.push(x).len() implies !rank_lt(s.push(x)[j], s.push(x)[i]) by {
            if j == s.len() {
                let e = s[i];
                if i < s.len() - 1 {
                    assert(!rank_lt(s.last(), e));
                    lemma_rank_order(x, s.last(), e);
                }
            }
        }
    }
}

/// Every element of an insertion is the inserted one or one of the old
/// ones, and conversely.
pub proof fn lemma_insert_sorted_elems(x: ScoreData, s: Seq<ScoreData>)
    ensures
        insert_sorted(x, s).len() == s.len() + 1,
        forall|i: int|
            0 <= i < insert_sorted(x, s).len() ==> (insert_sorted(x, s)[i] == x || s.contains(
                #[trigger] insert_sorted(x, s)[i],
            )),
        insert_sorted(x, s).contains(x),
        forall|e: ScoreData| s.contains(e) ==> insert_sorted(x, s).contains(e),
    decreases s.len(),
{
    if s.len() == 0 {
        assert(insert_sorted(x, s) == seq![x]);
        assert(seq![x][0] == x);
        assert(seq![x].contains(x));
    } else if rank_lt(x, s.last()) {
        lemma_insert_sorted_elems(x, s.drop_last());
        let t = insert_sorted(x, s.drop_last());
        assert forall|i: int| 0 <= i < t.push(s.last()).len() implies (t.push(s.last())[i] == x
            || s.contains(#[trigger] t.push(s.last())[i])) by {
            if i < t.len() {
                if t[i] != x {
                    assert(s.drop_last().contains(t[i]));
                    let w = choose|w: int|
                        0 <= w < s.drop_last().len() && s.drop_last()[w] == t[i];
                    assert(s[w] == t[i]);
                }
            } else {
                assert(s.last() == s[s.len() - 1]);
            }
        }
        assert forall|e: ScoreData| s.contains(e) implies t.push(s.last()).contains(e) by {
            let w = choose|w: int| 0 <= w < s.len() && s[w] == e;
            if w < s.len() - 1 {
                assert(s.drop_last()[w] == e);
                assert(s.drop_last().contains(e));
                assert(t.contains(e));
                let u = choose|u: int| 0 <= u < t.len() && t[u] == e;
                assert(t.push(s.last())[u] == e);
            } else {
                assert(t.push(s.last())[t.len() as int] == s.last());
            }
        }
        let u = choose|u: int| 0 <= u < t.len() && t[u] == x;
        assert(t.push(s.last())[u] == x);
        assert(t.push(s.last()).contains(x));
    } else {
        assert(s.push(x)[s.len() as int] == x);
        assert(s.push(x).contains(x));
        assert forall|e: ScoreData| s.contains(e) implies s.push(x).contains(e) by {
            let w = choose|w: int| 0 <= w < s.len() && s[w] == e;
            assert(s.push(x)[w] == e);
        }
    }
}

/// The sort is sorted and keeps exactly the elements of its input.
pub proof fn lemma_sort_data_sorted(s: Seq<ScoreData>)
    ensures
        rank_sorted(sort_data(s)),
        sort_data(s).len() == s.len(),
        forall|i: int|
            0 <= i < sort_data(s).len() ==> s.contains(#[trigger] sort_data(s)[i]),
        forall|e: ScoreData| s.contains(e) ==> sort_data(s).contains(e),
    decreases s.len(),
{
    if s.len() > 0 {
        lemma_sort_data_sorted(s.drop_last());
        lemma_insert_sorted_sorted(s.last(), sort_data(s.drop_last()));
        lemma_insert_sorted_elems(s.last(), sort_data(s.drop_last()));
        let t = insert_sorted(s.last(), sort_data(s.drop_last()));
        assert forall|i: int| 0 <= i < t.len() implies s.contains(#[trigger] t[i]) by {
            if t[i] == s.last() {
                assert(s[s.len() - 1] == s.last());
            } else {
                assert(sort_data(s.drop_last()).contains(t[i]));
                assert(s.drop_last().contains(t[i]));
                let w = choose|w: int|
                    0 <= w < s.drop_last().len() && s.drop_last()[w] == t[i];
                assert(s[w] == t[i]);
            }
        }
        assert forall|e: ScoreData| s.contains(e) implies t.contains(e) by {
            let w = choose|w: int| 0 <= w < s.len() && s[w] == e;
            if w < s.len() - 1 {
                assert(s.drop_last()[w] == e);
                assert(s.drop_last().contains(e));
                assert(sort_data(s.drop_last()).contains(e));
            }
        }
    }
}

/// Pairwise distinct record identities within a result list.
pub open spec fn data_distinct(s: Seq<ScoreData>) -> bool {
    forall|a: int, b: int| 0 <= a < b < s.len() ==> s[a].3.index != s[b].3.index
}

/// Inserting an element whose record identity is fresh into a strictly
/// sorted, identity-distinct list keeps it strictly sorted and
/// identity-distinct.
pub proof fn lemma_insert_strict(x: ScoreData, s: Seq<ScoreData>)
    requires
        rank_strict_sorted(s),
        data_distinct(s),
        forall|i: int| 0 <= i < s.len() ==> (#[trigger] s[i]).3.index != x.3.index,
    ensures
        rank_strict_sorted(insert_sorted(x, s)),
        data_distinct(insert_sorted(x, s)),
    decreases s.len(),
{
    lemma_insert_sorted_elems(x, s);
    if s.len() == 0 {
    } else if rank_lt(x, s.last()) {
        assert forall|i: int|
            0 <= i < s.drop_last().len() implies (#[trigger] s.drop_last()[i]).3.index
            != x.3.index by {
            assert(s.drop_last()[i] == s[i]);
        }
        lemma_insert_strict(x, s.drop_last());
        lemma_insert_sorted_elems(x, s.drop_last());
        let t = insert_sorted(x, s.drop_last());
        let r = t.push(s.last());
        assert forall|i: int, j: int| 0 <= i < j < r.len() implies rank_lt(r[i], r[j]) by {
            if j == t.len() {
                let e = t[i];
                if e == x {
                } else {
                    assert(s.drop_last().contains(e));
                    let w = choose|w: int|
                        0 <= w < s.drop_last().len() && s.drop_last()[w] == e;
                    assert(s[w] == e);
                    assert(rank_lt(s[w], s.last()));
                }
            }
        }
        assert forall|i: int, j: int| 0 <= i < j < r.len() implies r[i].3.index
            != r[j].3.index by {
            if j == t.len() {
                let e = t[i];
                if e == x {
                } else {
                    assert(s.drop_last().contains(e));
                    let w = choose|w: int|
                        0 <= w < s.drop_last().len() && s.drop_last()[w] == e;
                    assert(s[w] == e);
                }
            }
        }
    } else {
        let r = s.push(x);
        assert forall|i: int, j: int| 0 <= i < j < r.len() implies rank_lt(r[i], r[j]) by {
            if j == s.len() {
                let e = s[i];
                lemma_rank_order(x, s.last(), e);
                assert(s[i].3.index != x.3.index);
                if !rank_lt(e, x) && !rank_lt(x, e) {
                    lemma_rank_order(e, x, x);
                    assert(false);
                }
                if rank_lt(x, e) {
                    if i < s.len() - 1 {
                        assert(rank_lt(e, s.last()));
                        lemma_rank_order(x, e, s.last());
                        assert(rank_lt(x, s.last()));
                        assert(false);
                    } else {
                        assert(false);
                    }
                }
            }
        }
    }
}

/// Sorting an identity-distinct result list yields a strictly sorted,
/// identity-distinct list.
pub proof fn lemma_sort_strict(s: Seq<ScoreData>)
    requires
        data_distinct(s),
    ensures
        rank_strict_sorted(sort_data(s)),
        data_distinct(sort_data(s)),
    decreases s.len(),
{
    if s.len() > 0 {
        assert forall|a: int, b: int|
            0 <= a < b < s.drop_last().len() implies s.drop_last()[a].3.index
            != s.drop_last()[b].3.index by {
            assert(s.drop_last()[a] == s[a]);
            assert(s.drop_last()[b] == s[b]);
        }
        lemma_sort_strict(s.drop_last());
        lemma_sort_data_sorted(s.drop_last());
        let t = sort_data(s.drop_last());
        assert forall|i: int| 0 <= i < t.len() implies (#[trigger] t[i]).3.index
            != s.last().3.index by {
            assert(s.drop_last().contains(t[i]));
            let w = choose|w: int| 0 <= w < s.drop_last().len() && s.drop_last()[w] == t[i];
            assert(s[w] == t[i]);
            assert(s[w].3.index != s[s.len() - 1].3.index);
        }
        lemma_insert_strict(s.last(), t);
    }
}

/// Two strictly sorted lists with the same elements are the same list.
pub proof fn lemma_strict_sorted_unique(s1: Seq<ScoreData>, s2: Seq<ScoreData>)
    requires
        rank_strict_sorted(s1),
        rank_strict_sorted(s2),
        forall|d: ScoreData| s1.contains(d) <==> s2.contains(d),
    ensures
        s1 == s2,
    decreases s1.len(),
{
    if s1.len() == 0 {
        if s2.len() > 0 {
            assert(s2.contains(s2[0]));
            assert(s1.contains(s2[0]));
            assert(false);
        }
        assert(s1 =~= s2);
    } else {
        assert(s1.contains(s1[0]));
        assert(s2.contains(s1[0]));
        let j = choose|j: int| 0 <= j < s2.len() && s2[j] == s1[0];
        assert(s2.contains(s2[0]));
        assert(s1.contains(s2[0]));
        let i = choose|i: int| 0 <= i < s1.len() && s1[i] == s2[0];
        if i > 0 && j > 0 {
            assert(rank_lt(s1[0], s1[i]));
            assert(rank_lt(s2[0], s2[j]));
            lemma_rank_order(s1[0], s2[0], s1[0]);
            assert(false);
        }
        if i > 0 && j == 0 {
            assert(rank_lt(s1[0], s1[i]));
            assert(s1[i] == s2[0] && s2[0] == s1[0]);
            lemma_rank_order(s1[0], s1[0], s1[0]);
            assert(false);
        }
        if i == 0 && j > 0 {
            assert(rank_lt(s2[0], s2[j]));
            assert(s2[j] == s1[0] && s1[0] == s2[0]);
            lemma_rank_order(s2[0], s2[0], s2[0]);
            assert(false);
        }
        assert(s1[0] == s2[0]);
        let t1 = s1.drop_first();
        let t2 = s2.drop_first();
        assert forall|a: int, b: int| 0 <= a < b < t1.len() implies rank_lt(t1[a], t1[b]) by {
            assert(t1[a] == s1[a + 1]);
            assert(t1[b] == s1[b + 1]);
        }
        assert forall|a: int, b: int| 0 <= a < b < t2.len() implies rank_lt(t2[a], t2[b]) by {
            assert(t2[a] == s2[a + 1]);
            assert(t2[b] == s2[b + 1]);
        }
        assert forall|d: ScoreData| t1.contains(d) implies t2.contains(d) by {
            let w = choose|w: int| 0 <= w < t1.len() && t1[w] == d;
            assert(s1[w + 1] == d);
            assert(s1.contains(d));
            assert(s2.contains(d));
            let m = choose|m: int| 0 <= m < s2.len() && s2[m] == d;
            if m == 0 {
                assert(d == s2[0] && s2[0] == s1[0]);
                assert(rank_lt(s1[0], s1[w + 1]));
                lemma_rank_order(s1[0], s1[0], s1[0]);
                assert(false);
            }
            assert(t2[m - 1] == d);
            assert(t2.contains(d));
        }
        assert forall|d: ScoreData| t2.contains(d) implies t1.contains(d) by {
            let w = choose|w: int| 0 <= w < t2.len() && t2[w] == d;
            assert(s2[w + 1] == d);
            assert(s2.contains(d));
            assert(s1.contains(d));
            let m = choose|m: int| 0 <= m < s1.len() && s1[m] == d;
            if m == 0 {
                assert(d == s1[0] && s1[0] == s2[0]);
                assert(rank_lt(s2[0], s2[w + 1]));
                lemma_rank_order(s2[0], s2[0], s2[0]);
                assert(false);
            }
            assert(t1[m - 1] == d);
            assert(t1.contains(d));
        }
        lemma_strict_sorted_unique(t1, t2);
        assert forall|w: int| 0 <= w < s1.len() implies s1[w] == s2[w] by {
            if w > 0 {
                assert(t1[w - 1] == s1[w]);
                assert(t2[w - 1] == s2[w]);
            }
        }
        assert(s1 =~= s2);
    }
}

/// Where the first strictly-outranked element sits is where insertion
/// lands: before it, after everything else.
proof fn lemma_insert_at(x: ScoreData, s: Seq<ScoreData>, pos: int)
    requires
        rank_sorted(s),
        0 <= pos <= s.len(),
        forall|j: int| 0 <= j < pos ==> !rank_lt(x, s[j]),
        pos < s.len() ==> rank_lt(x, s[pos]),
    ensures
        insert_sorted(x, s) == s.subrange(0, pos) + seq![x] + s.subrange(pos, s.len() as int),
    decreases s.len(),
{
    if s.len() == 0 {
        assert(insert_sorted(x, s) =~= s.subrange(0, pos) + seq![x] + s.subrange(
            pos,
            s.len() as int,
        ));
    } else if rank_lt(x, s.last()) {
        if pos == s.len() {
            assert(rank_lt(x, s[pos - 1]));
            assert(false);
        }
        assert forall|j: int| 0 <= j < pos implies !rank_lt(x, s.drop_last()[j]) by {
            assert(s.drop_last()[j] == s[j]);
        }
        if pos < s.len() - 1 {
            assert(s.drop_last()[pos] == s[pos]);
        } else {
            assert(pos == s.len() - 1);
        }
        lemma_insert_at(x, s.drop_last(), pos);
        assert(insert_sorted(x, s) =~= s.subrange(0, pos) + seq![x] + s.subrange(
            pos,
            s.len() as int,
        ));
    } else {
        if pos < s.len() {
            assert(!rank_lt(x, s.last()));
            if pos < s.len() - 1 {
                assert(!rank_lt(s.last(), s[pos]));
                lemma_rank_order(x, s[pos], s.last());
                assert(false);
            } else {
                assert(rank_lt(x, s.last()));
                assert(false);
            }
        }
        assert(insert_sorted(x, s) =~= s.subrange(0, pos) + seq![x] + s.subrange(
            pos,
            s.len() as int,
        ));
    }
}

/// The exec comparator behind the sort: the match comparator's verdict,
/// ties broken by load order.
fn rank_before(a: &Score, b: &Score) -> (r: bool)
    requires
        a.wf(),
        b.wf(),
    ensures
        r == rank_lt(score_data(*a), score_data(*b)),
{
    match Score::cmp(a, b) {
        Ordering::Less => true,
        Ordering::Equal => a.line.index < b.line.index,
        Ordering::Greater => false,
    }
}

/// Sorts a result list by the ranking order, stably: the unique ranked
/// arrangement of its contents.
pub fn sort_scores<'a>(v: &mut Vec<Score<'a>>)
    requires
        forall|i: int| 0 <= i < old(v)@.len() ==> score_ok(#[trigger] old(v)@[i]),
    ensures
        scores_data(final(v)@) == sort_data(scores_data(old(v)@)),
        forall|i: int| 0 <= i < final(v)@.len() ==> score_ok(#[trigger] final(v)@[i]),
{
    let ghost gd = scores_data(v@);
    let mut out: Vec<Score<'a>> = Vec::new();
    let mut i: usize = 0;
    let n = v.len();
    while i < n
        invariant
            n == v@.len(),
            0 <= i <= n,
            gd == scores_data(v@),
            forall|w: int| 0 <= w < v@.len() ==> score_ok(#[trigger] v@[w]),
            forall|w: int| 0 <= w < out@.len() ==> score_ok(#[trigger] out@[w]),
            scores_data(out@) == sort_data(gd.take(i as int)),
        decreases n - i,
    {
        let x = v[i];
        let ghost xd = score_data(x);
        let mut pos: usize = 0;
        let m = out.len();
        while pos < m && !rank_before(&x, &out[pos])
            invariant
                m == out@.len(),
                0 <= pos <= m,
                score_ok(x),
                forall|w: int| 0 <= w < out@.len() ==> score_ok(#[trigger] out@[w]),
                forall|j: int| 0 <= j < pos ==> !rank_lt(xd, score_data(out@[j])),
                xd == score_data(x),
            decreases m - pos,
        {
            pos += 1;
        }
        proof {
            lemma_sort_data_sorted(gd.take(i as int));
            assert forall|j: int| 0 <= j < pos implies !rank_lt(
                xd,
                scores_data(out@)[j],
            ) by {
                assert(scores_data(out@)[j] == score_data(out@[j]));
            }
            if (pos as int) < out@.len() {
                assert(rank_lt(xd, score_data(out@[pos as int])));
                assert(scores_data(out@)[pos as int] == score_data(out@[pos as int]));
            }
            lemma_insert_at(xd, scores_data(out@), pos as int);
        }
        out.insert(pos, x);
        i += 1;
        proof {
            assert(gd.take(i as int).drop_last() =~= gd.take(i as int - 1));
            assert(gd.take(i as int).last() == score_data(v@[i as int - 1]));
            assert(scores_data(out@) =~= sort_data(gd.take(i as int)));
        }
    }
    proof {
        assert(gd.take(n as int) =~= gd);
    }
    *v = out;
}

} // verus!
