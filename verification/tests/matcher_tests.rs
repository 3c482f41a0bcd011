use page_resolver::corpus::Corpus;
use page_resolver::corpus::Position;
use page_resolver::matcher::MatchResult;
use page_resolver::matcher::SCALE;

fn s(x: &str) -> String {
    x.to_string()
}

fn chars(x: &str) -> Vec<char> {
    x.chars().collect()
}

fn distinct_corpus() -> Corpus {
    let input: Vec<(u64, Vec<String>)> = vec![
        (1, vec![s("alpha one"), s("beta two"), s("gamma three"), s("delta four")]),
        (2, vec![s("epsilon five"), s("zeta six"), s("eta seven"), s("theta eight")]),
        (3, vec![s("iota nine"), s("kappa ten"), s("lambda eleven"), s("mu twelve")]),
    ];
    Corpus::build(&input)
}

#[test]
fn corpus_build_normalizes_and_flattens() {
    let c = distinct_corpus();
    assert_eq!(c.len(), 12);
    assert_eq!(c.fragment_at(5), &chars("zeta six"));
    assert_eq!(c.location_at(5), Position { page_id: 2, offset: 1 });
    assert_eq!(c.location_at(0), Position { page_id: 1, offset: 0 });
    assert_eq!(c.location_at(11), Position { page_id: 3, offset: 3 });
}

#[test]
fn corpus_retains_empty_pages() {
    let input: Vec<(u64, Vec<String>)> = vec![
        (10, vec![s("one"), s("two")]),
        (11, vec![]),
        (12, vec![s("three")]),
    ];
    let c = Corpus::build(&input);
    assert_eq!(c.len(), 3);
    assert_eq!(c.location_at(2), Position { page_id: 12, offset: 0 });
    // The empty page still anchors between its neighbours.
    assert_eq!(c.anchor_flat(Position { page_id: 11, offset: 0 }), 2);
}

#[test]
fn exact_query_is_found_with_full_confidence() {
    let c = distinct_corpus();
    let q = vec![s("zeta six"), s("eta seven")];
    let r = c.match_query(&q);
    assert_eq!(
        r,
        MatchResult::Confident {
            position: Position { page_id: 2, offset: 1 },
            confidence: SCALE,
        }
    );
}

#[test]
fn matching_tolerates_case_and_punctuation() {
    let c = distinct_corpus();
    let q = vec![s("ZETA   six!!"), s("Eta, SEVEN.")];
    let r = c.match_query(&q);
    assert_eq!(
        r,
        MatchResult::Confident {
            position: Position { page_id: 2, offset: 1 },
            confidence: SCALE,
        }
    );
}

#[test]
fn disjoint_vocabulary_never_matches() {
    let c = distinct_corpus();
    let q = vec![s("unrelated words"), s("nothing here")];
    assert_eq!(c.match_query(&q), MatchResult::NoConfidentMatch);
}

#[test]
fn empty_query_never_matches() {
    let c = distinct_corpus();
    assert_eq!(c.match_query(&vec![]), MatchResult::NoConfidentMatch);
    assert_eq!(c.match_query(&vec![s("  ,, "), s("")]), MatchResult::NoConfidentMatch);
}

#[test]
fn empty_corpus_never_matches() {
    let c = Corpus::build(&vec![]);
    assert_eq!(c.match_query(&vec![s("anything")]), MatchResult::NoConfidentMatch);
}

#[test]
fn repeated_calls_return_identical_results() {
    let c = distinct_corpus();
    let q = vec![s("iota nine"), s("kappa ten")];
    let r1 = c.match_query(&q);
    let r2 = c.match_query(&q);
    assert_eq!(r1, r2);
    assert!(matches!(r1, MatchResult::Confident { .. }));
}

#[test]
fn tied_windows_are_reported_as_ambiguous() {
    let input: Vec<(u64, Vec<String>)> = vec![
        (1, vec![s("one"), s("two"), s("x1"), s("x2")]),
        (2, vec![s("one"), s("two"), s("y1"), s("y2")]),
    ];
    let c = Corpus::build(&input);
    let q = vec![s("one"), s("two")];
    assert_eq!(c.match_query(&q), MatchResult::NoConfidentMatch);
}

#[test]
fn corpus_shorter_than_query_scores_one_window() {
    let input: Vec<(u64, Vec<String>)> = vec![(1, vec![s("aa"), s("bb")])];
    let c = Corpus::build(&input);
    let q = vec![s("aa"), s("bb"), s("cc")];
    let r = c.match_query(&q);
    // Two of three query fragments are present in the only window.
    assert_eq!(
        r,
        MatchResult::Confident {
            position: Position { page_id: 1, offset: 0 },
            confidence: 2 * SCALE / 3,
        }
    );
}

#[test]
fn position_hint_disambiguates_repeated_text() {
    let input: Vec<(u64, Vec<String>)> = vec![
        (1, vec![s("chapter head"), s("text one")]),
        (2, vec![s("chapter head"), s("text two")]),
        (3, vec![s("chapter head"), s("text three")]),
        (4, vec![s("chapter head"), s("text four")]),
    ];
    let c = Corpus::build(&input);
    let q = vec![s("chapter head")];
    // Unbounded search: the running header ties across pages.
    assert_eq!(c.match_query(&q), MatchResult::NoConfidentMatch);
    // Bounded search around the known position: unambiguous.
    let r = c.match_query_near(&q, Position { page_id: 3, offset: 0 }, 1);
    assert_eq!(
        r,
        MatchResult::Confident {
            position: Position { page_id: 3, offset: 0 },
            confidence: SCALE,
        }
    );
}

#[test]
fn overlong_query_is_capped_and_still_matches() {
    // One page of 70 distinct fragments; the query repeats all of
    // them, but only the first 64 take part in matching.
    let frags: Vec<String> = (0..70).map(|i| format!("token number {}", i)).collect();
    let input: Vec<(u64, Vec<String>)> = vec![(1, frags.clone())];
    let c = Corpus::build(&input);
    let r = c.match_query(&frags);
    assert_eq!(
        r,
        MatchResult::Confident {
            position: Position { page_id: 1, offset: 0 },
            confidence: SCALE,
        }
    );
}
