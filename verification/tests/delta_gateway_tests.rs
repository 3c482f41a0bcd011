use page_resolver::corpus::Corpus;
use page_resolver::corpus::Position;
use page_resolver::delta::Delta;
use page_resolver::gateway::Completion;
use page_resolver::gateway::Gateway;
use page_resolver::gateway::Outcome;
use page_resolver::gateway::Request;
use page_resolver::gateway::perform;
use page_resolver::matcher::MatchResult;
use page_resolver::matcher::SCALE;

fn s(x: &str) -> String {
    x.to_string()
}

fn eight_page_corpus() -> Corpus {
    let mut input: Vec<(u64, Vec<String>)> = Vec::new();
    for p in 1..=8u64 {
        input.push((p, vec![format!("page {} first", p), format!("page {} second", p)]));
    }
    Corpus::build(&input)
}

#[test]
fn delta_reports_forward_distance_in_fragments() {
    let c = eight_page_corpus();
    let q1 = vec![s("page 3 first"), s("page 3 second")];
    let q2 = vec![s("page 7 first"), s("page 7 second")];
    let current = Position { page_id: 3, offset: 0 };
    let r = c.resolve_delta(&q1, &q2, current, 100);
    assert_eq!(
        r.first,
        MatchResult::Confident {
            position: Position { page_id: 3, offset: 0 },
            confidence: SCALE,
        }
    );
    assert_eq!(
        r.second,
        MatchResult::Confident {
            position: Position { page_id: 7, offset: 0 },
            confidence: SCALE,
        }
    );
    // Pages 3 and 7 are four two-fragment pages apart.
    assert_eq!(r.delta, Delta::Forward { magnitude: 8 });
}

#[test]
fn delta_reports_backward_and_same() {
    let c = eight_page_corpus();
    let q3 = vec![s("page 3 first"), s("page 3 second")];
    let q5 = vec![s("page 5 first"), s("page 5 second")];
    let current = Position { page_id: 4, offset: 0 };
    let back = c.resolve_delta(&q5, &q3, current, 100);
    assert_eq!(back.delta, Delta::Backward { magnitude: 4 });
    let same = c.resolve_delta(&q5, &q5, current, 100);
    assert_eq!(same.delta, Delta::Same);
}

#[test]
fn delta_is_unknown_when_either_side_is_unconfident() {
    let c = eight_page_corpus();
    let good = vec![s("page 2 first"), s("page 2 second")];
    let bad = vec![s("words from nowhere")];
    let current = Position { page_id: 2, offset: 0 };
    let r = c.resolve_delta(&good, &bad, current, 100);
    assert!(matches!(r.first, MatchResult::Confident { .. }));
    assert_eq!(r.second, MatchResult::NoConfidentMatch);
    assert_eq!(r.delta, Delta::Unknown);
}

#[test]
fn two_concurrent_requests_each_get_their_own_result() {
    let c = eight_page_corpus();
    let mut g = Gateway::new();
    let t1 = g.dispatch();
    let t2 = g.dispatch();
    assert_ne!(t1.request_id, t2.request_id);

    let req1 = Request::PositionMatch { fragments: vec![s("page 2 first"), s("page 2 second")] };
    let req2 = Request::PositionMatch { fragments: vec![s("page 6 first"), s("page 6 second")] };
    // Workers may finish in any order; complete the second one first.
    let c2 = perform(&c, t2, &req2);
    let c1 = perform(&c, t1, &req1);

    assert!(g.accept(&c2));
    assert_eq!(
        c2.outcome,
        Outcome::Matched(MatchResult::Confident {
            position: Position { page_id: 6, offset: 0 },
            confidence: SCALE,
        })
    );
    assert!(g.accept(&c1));
    assert_eq!(
        c1.outcome,
        Outcome::Matched(MatchResult::Confident {
            position: Position { page_id: 2, offset: 0 },
            confidence: SCALE,
        })
    );
    // Exactly one acceptance per request.
    assert!(!g.accept(&c1));
}

#[test]
fn stale_result_after_book_change_is_ignored() {
    let c_old = eight_page_corpus();
    let mut g = Gateway::new();
    let t = g.dispatch();
    let req = Request::PositionMatch { fragments: vec![s("page 4 first"), s("page 4 second")] };
    let stale = perform(&c_old, t, &req);

    // The book is replaced while the request is in flight.
    g.book_changed();
    let fresh_input: Vec<(u64, Vec<String>)> = vec![(1, vec![s("brand new text")])];
    let _c_new = Corpus::build(&fresh_input);

    // The stale completion arrives afterwards and is safely rejected.
    assert!(!g.accept(&stale));
    // A forged or repeated delivery with the new epoch is rejected too:
    // its request is not outstanding.
    let forged = Completion { request_id: t.request_id, epoch: stale.epoch + 1, outcome: stale.outcome };
    assert!(!g.accept(&forged));
}

#[test]
fn delta_request_through_gateway_matches_direct_resolution() {
    let c = eight_page_corpus();
    let mut g = Gateway::new();
    let t = g.dispatch();
    let q1 = vec![s("page 3 first"), s("page 3 second")];
    let q2 = vec![s("page 7 first"), s("page 7 second")];
    let current = Position { page_id: 3, offset: 0 };
    let req = Request::DeltaMatch {
        first: q1.clone(),
        second: q2.clone(),
        current,
        radius: 100,
    };
    let done = perform(&c, t, &req);
    assert!(g.accept(&done));
    let direct = c.resolve_delta(&q1, &q2, current, 100);
    assert_eq!(done.outcome, Outcome::Resolved(direct));
}
