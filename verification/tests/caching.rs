use linepick::cache::{get_scores, query_str, score_all, ScoreCache};
use linepick::line::Line;
use linepick::score::{calculate_score, Score};

fn records(texts: &[&str]) -> Vec<Line> {
    texts
        .iter()
        .enumerate()
        .map(|(i, t)| Line::new(i, String::from(*t)))
        .collect()
}

#[test]
fn test_query_str() {
    assert_eq!(query_str(&['f', 'o', 'o']), String::from("foo"));
}

#[test]
fn test_get_scores() {
    let lines = records(&["foo", "bar", "baz"]);
    let mut query: Vec<char> = vec![];
    let mut map = ScoreCache::new(&lines);
    let scores: Vec<Score> = lines
        .iter()
        .filter_map(|l| calculate_score(l, &query))
        .collect();
    map.insert(Vec::new(), scores.clone());
    // we should get new scores that were calculated from the "" scores
    query.push('b');
    let result = get_scores(&mut map, &query);
    assert_eq!(result.len(), 2);
    assert_ne!(result, scores);
    // create new scores to associate with the "b" query
    let scores: Vec<Score> = lines
        .iter()
        .filter_map(|l| calculate_score(l, &query))
        .collect();
    // there should only be two scores
    assert_eq!(scores.len(), 2);
    map.insert(query.clone(), scores.clone());
    // just make sure we got those scores back with no change in query
    let result = get_scores(&mut map, &query);
    assert_eq!(result, scores);
    // now add a char to the query
    query.push('a');
    // we should get new scores that were calculated from the "b" scores
    let result = get_scores(&mut map, &query);
    assert_eq!(result.len(), 2);
    assert_ne!(result, scores);
    // we should get scores we already calculated, if they exist
    let old_result = result.clone();
    let result = get_scores(&mut map, &query);
    assert_eq!(result, old_result);
}

#[test]
fn test_empty_query_matches_all_in_order() {
    // every record matches the empty query with the sentinel points, and
    // equal-ranked records keep their original order
    let lines = records(&["foo", "bar", "baz"]);
    let result = score_all(&lines, &[]);
    assert_eq!(result.len(), 3);
    for s in &result {
        assert_eq!(s.points, usize::MAX);
        assert_eq!((s.first, s.last), (0, 0));
    }
    assert_eq!(result[0].line.buf, "foo");
    assert_eq!(result[1].line.buf, "bar");
    assert_eq!(result[2].line.buf, "baz");
}

#[test]
fn test_incremental_narrowing() {
    // resolving "a" derives from the empty-query ancestor; extending to
    // "ar" derives from the "a" ancestor and keeps only "bar", since
    // "baz" has no "r" after its "a"
    let lines = records(&["bar", "baz", "qux"]);
    let mut map = ScoreCache::new(&lines);
    let empty = score_all(&lines, &[]);
    map.insert(Vec::new(), empty);

    let result = get_scores(&mut map, &['a']);
    assert_eq!(result.len(), 2);
    assert_eq!(result[0].line.buf, "bar");
    assert_eq!(result[1].line.buf, "baz");

    let result = get_scores(&mut map, &['a', 'r']);
    assert_eq!(result.len(), 1);
    assert_eq!(result[0].line.buf, "bar");
}

#[test]
fn test_cache_path_equals_direct_path() {
    // the incremental cache path returns exactly what scoring every record
    // from scratch returns, in the same order
    let lines = records(&["abcd", "acbd", "xaby", "zzz", "ABDC"]);
    let mut map = ScoreCache::new(&lines);
    let empty = score_all(&lines, &[]);
    map.insert(Vec::new(), empty);
    let via_a = get_scores(&mut map, &['a']);
    assert_eq!(via_a, score_all(&lines, &['a']));
    let via_ab = get_scores(&mut map, &['a', 'b']);
    assert_eq!(via_ab, score_all(&lines, &['a', 'b']));
    let via_abd = get_scores(&mut map, &['a', 'b', 'd']);
    assert_eq!(via_abd, score_all(&lines, &['a', 'b', 'd']));
}

#[test]
fn test_ranking_ties_keep_load_order() {
    // records with equal points, span and length stay in load order
    let lines = records(&["aa", "ab", "ac"]);
    let result = score_all(&lines, &['a']);
    assert_eq!(result.len(), 3);
    assert_eq!(result[0].line.index, 0);
    assert_eq!(result[1].line.index, 1);
    assert_eq!(result[2].line.index, 2);
}
