use page_resolver::controller::EpubPageController;
use page_resolver::corpus::Position;
use page_resolver::delta::Delta;
use page_resolver::gateway::Outcome;
use page_resolver::matcher::MatchResult;
use page_resolver::matcher::SCALE;

fn s(x: &str) -> String {
    x.to_string()
}

fn book(tag: &str) -> Vec<(u64, Vec<String>)> {
    (1..=6u64)
        .map(|p| (p, vec![format!("{} page {} head", tag, p), format!("{} page {} tail", tag, p)]))
        .collect()
}

#[test]
fn controller_runs_a_search_end_to_end() {
    let mut ctl = EpubPageController::open_book(&book("alpha"));
    let t = ctl.begin_request();
    let done = ctl.search(t, vec![s("alpha page 5 head"), s("alpha page 5 tail")]);
    assert!(ctl.on_completion(&done));
    assert_eq!(
        done.outcome,
        Outcome::Matched(MatchResult::Confident {
            position: Position { page_id: 5, offset: 0 },
            confidence: SCALE,
        })
    );
    // The same completion is not accepted twice.
    assert!(!ctl.on_completion(&done));
}

#[test]
fn controller_runs_a_reverse_search() {
    let mut ctl = EpubPageController::open_book(&book("beta"));
    let t = ctl.begin_request();
    let done = ctl.reverse_search(
        t,
        vec![s("beta page 2 head"), s("beta page 2 tail")],
        vec![s("beta page 4 head"), s("beta page 4 tail")],
        Position { page_id: 2, offset: 0 },
        50,
    );
    assert!(ctl.on_completion(&done));
    match done.outcome {
        Outcome::Resolved(d) => assert_eq!(d.delta, Delta::Forward { magnitude: 4 }),
        Outcome::Matched(_) => panic!("expected a delta outcome"),
    }
}

#[test]
fn controller_drops_result_of_replaced_book() {
    let mut ctl = EpubPageController::open_book(&book("gamma"));
    let t = ctl.begin_request();
    let stale = ctl.search(t, vec![s("gamma page 3 head")]);
    ctl.change_book(&book("delta"));
    // The old book's completion arrives after the switch: rejected.
    assert!(!ctl.on_completion(&stale));
    // A search against the new book still works.
    let t2 = ctl.begin_request();
    let fresh = ctl.search(t2, vec![s("delta page 3 head"), s("delta page 3 tail")]);
    assert!(ctl.on_completion(&fresh));
    assert_eq!(
        fresh.outcome,
        Outcome::Matched(MatchResult::Confident {
            position: Position { page_id: 3, offset: 0 },
            confidence: SCALE,
        })
    );
}
