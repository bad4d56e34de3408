use linepick::line::Line;
use linepick::score::{calculate_score, find_end_of_match, Score};
use std::cmp::Ordering;

#[test]
fn test_line_new() {
    let l = Line::from("FOOBAR");
    assert_eq!(l.low_buf, "foobar");
}

#[test]
fn test_line_length() {
    let l = Line::from("foo");
    assert_eq!(l.len(), 3);
}

#[test]
fn test_low_char_vec() {
    let l = Line::from("FOOBAR");
    for (i, c) in l.low_char_vec {
        assert_eq!(
            match i {
                0 => 'f',
                3 => 'b',
                4 => 'a',
                5 => 'r',
                _ => 'o',
            },
            c
        );
    }
}

#[test]
fn test_calculate_score() {
    // the scan over start positions stops at the first failing start
    let line = Line::from("foobarflubfuzz");
    let expected = Some(Score {
        line: &line,
        first: 0,
        last: 6,
        points: 5,
    });
    assert_eq!(calculate_score(&line, &['f', 'b', 'a', 'r']), expected);

    // no score if the query is not in the record
    assert_eq!(calculate_score(&Line::from("foo"), &['q', 'x', 'z']), None);

    // the sentinel points if the query is empty
    let line = Line::from("foo");
    let expected = Some(Score {
        first: 0,
        last: 0,
        points: usize::MAX,
        line: &line,
    });
    assert_eq!(calculate_score(&Line::from("foo"), &[]), expected);

    // single character query
    let line = Line::from("oof");
    let expected = Some(Score {
        first: 2,
        last: 3,
        points: 1,
        line: &line,
    });
    assert_eq!(calculate_score(&Line::from("oof"), &['f']), expected);
    assert_eq!(calculate_score(&Line::from("oof"), &['b']), None);

    let line = Line::from("foofbbar");
    let expected = Some(Score {
        first: 0,
        last: 5,
        points: 5,
        line: &line,
    });
    assert_eq!(
        calculate_score(&Line::from("foofbbar"), &['f', 'o', 'b']),
        expected
    );

    let line = Line::from("foo / ba r");
    let expected = Some(Score {
        first: 1,
        last: 10,
        points: 2,
        line: &line,
    });
    assert_eq!(
        calculate_score(&Line::from("foo / ba r"), &['o', 'r']),
        expected
    );

    let line = Line::from("f||||||||b||||||||||||||a||||f||||||||r");
    let expected = Some(Score {
        first: 9,
        last: 39,
        points: 2,
        line: &line,
    });
    assert_eq!(
        calculate_score(
            &Line::from("f||||||||b||||||||||||||a||||f||||||||r"),
            &['b', 'a', 'r']
        ),
        expected
    );

    let line = Line::from("foo / ba /**  r");
    let expected = Some(Score {
        first: 6,
        last: 15,
        points: 3,
        line: &line,
    });
    assert_eq!(
        calculate_score(&Line::from("foo / ba /**  r"), &['b', 'a', 'r']),
        expected
    );

    // the best score wins when duplicates exist: same record with "bar"
    // at the beginning scores much better (lower)
    let line = Line::from("barfoo / ba /**  r");
    let expected = Some(Score {
        first: 0,
        last: 3,
        points: 2,
        line: &line,
    });
    assert_eq!(
        calculate_score(&Line::from("barfoo / ba /**  r"), &['b', 'a', 'r']),
        expected
    );

    // and with "bar" at the end the points tie but the span moves
    let line = Line::from("foo / ba /**  rbar");
    let expected = Some(Score {
        first: 15,
        last: 18,
        points: 2,
        line: &line,
    });
    assert_eq!(
        calculate_score(&Line::from("foo / ba /**  rbar"), &['b', 'a', 'r']),
        expected
    );
}

#[test]
fn test_find_end_of_match() {
    // no end if the query is not in the record
    assert_eq!(
        find_end_of_match(&Line::from("foo"), &['q', 'x', 'z'], 0),
        None
    );

    // no end if the query is not in the record after the given start
    assert_eq!(
        find_end_of_match(&Line::from("foofbar"), &['f', 'o'], 3),
        None
    );

    // the first end when multiples exist; the given start is taken as the
    // start of the match
    let s = Line::from("foofoofoobar");
    assert_eq!(find_end_of_match(&s, &['b'], 0), Some((10, 9)));
    assert_eq!(find_end_of_match(&s, &['b'], 4), Some((6, 9)));
    assert_eq!(find_end_of_match(&s, &['b'], 8), Some((2, 9)));
}

#[test]
fn test_range_length() {
    let s = Score {
        first: 0,
        last: 3,
        points: 2,
        line: &Line::from("foobar"),
    };
    assert_eq!(s.range_length(), 3);
}

#[test]
fn test_ordering() {
    // the score structs in this test might not be valid. we're just testing
    // specific attributes so that's okay.
    //
    // points decide first
    let a = Score {
        first: 0,
        last: 3,
        points: 1,
        line: &Line::from("foobar"),
    };
    let b = Score {
        first: 0,
        last: 3,
        points: 2,
        line: &Line::from("foobar"),
    };
    assert_eq!(Score::cmp(&a, &b), Ordering::Less);
    let a = Score {
        first: 0,
        last: 3,
        points: 3,
        line: &Line::from("foobar"),
    };
    let b = Score {
        first: 0,
        last: 3,
        points: 2,
        line: &Line::from("foobar"),
    };
    assert_eq!(Score::cmp(&a, &b), Ordering::Greater);
    // then the span length
    let a = Score {
        first: 0,
        last: 1,
        points: 2,
        line: &Line::from("foobar"),
    };
    let b = Score {
        first: 0,
        last: 3,
        points: 2,
        line: &Line::from("foobar"),
    };
    assert_eq!(Score::cmp(&a, &b), Ordering::Less);
    let a = Score {
        first: 0,
        last: 3,
        points: 2,
        line: &Line::from("foobar"),
    };
    let b = Score {
        first: 0,
        last: 1,
        points: 2,
        line: &Line::from("foobar"),
    };
    assert_eq!(Score::cmp(&a, &b), Ordering::Greater);
    // then the record length
    let a = Score {
        first: 0,
        last: 3,
        points: 2,
        line: &Line::from("fooba"),
    };
    let b = Score {
        first: 0,
        last: 3,
        points: 2,
        line: &Line::from("foobar"),
    };
    assert_eq!(Score::cmp(&a, &b), Ordering::Less);
    let a = Score {
        first: 0,
        last: 3,
        points: 2,
        line: &Line::from("foobar"),
    };
    let b = Score {
        first: 0,
        last: 3,
        points: 2,
        line: &Line::from("fooba"),
    };
    assert_eq!(Score::cmp(&a, &b), Ordering::Greater);
    // all three equal: equal rank
    let a = Score {
        first: 0,
        last: 3,
        points: 2,
        line: &Line::from("foobar"),
    };
    let b = Score {
        first: 0,
        last: 3,
        points: 2,
        line: &Line::from("foobar"),
    };
    assert_eq!(Score::cmp(&a, &b), Ordering::Equal);
}

#[test]
fn test_case_insensitive_query() {
    // an uppercase query character matches a lowercase record
    let line = Line::from("foo");
    let expected = Some(Score {
        first: 0,
        last: 1,
        points: 1,
        line: &line,
    });
    assert_eq!(calculate_score(&Line::from("foo"), &['F']), expected);

    // and an uppercase record matches a lowercase query
    let line = Line::from("FOO BAR");
    let score = calculate_score(&line, &['f', 'b']).unwrap();
    assert_eq!(score.points, 2);
}

#[test]
fn test_single_char_sentinel_points() {
    // a single character match always costs one point
    let line = Line::from("xyz");
    let score = calculate_score(&line, &['z']).unwrap();
    assert_eq!((score.first, score.last, score.points), (2, 3, 1));
}
