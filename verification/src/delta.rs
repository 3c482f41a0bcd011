//! Delta resolver.
//!
//! Given two screenshots and the last known reading position, the
//! resolver locates the first screenshot in a window around the known
//! position, re-anchors on that result when it is confident, locates
//! the second screenshot in a window around the anchor, and reports
//! the direction and fragment distance between the two resolved
//! positions.  When either side is not confident the delta is
//! explicitly unknown; a partial result is never passed off as a
//! distance.

use vstd::prelude::*;

use crate::corpus::Corpus;
use crate::corpus::Page;
use crate::corpus::Position;
use crate::corpus::anchor_of;
use crate::matcher::MatchResult;
use crate::matcher::match_near_spec;

verus! {

/// Direction and fragment distance between two resolved positions, or
/// an explicit refusal when either side was not confident.
#[derive(PartialEq, Eq, Structural, Clone, Copy, Debug)]
pub enum Delta {
    Forward { magnitude: usize },
    Backward { magnitude: usize },
    Same,
    Unknown,
}

/// The outcome of resolving two screenshots: each side's match and,
/// when both are confident, their distance in corpus order.
#[derive(PartialEq, Eq, Structural, Clone, Copy, Debug)]
pub struct DeltaResult {
    pub first: MatchResult,
    pub second: MatchResult,
    pub delta: Delta,
}

/// The corpus-order difference between two positions, in fragments.
pub open spec fn delta_of(ps: Seq<Page>, p1: Position, p2: Position) -> Delta {
    let a1 = anchor_of(ps, p1);
    let a2 = anchor_of(ps, p2);
    if a1 == a2 {
        Delta::Same
    } else if a2 > a1 {
        Delta::Forward { magnitude: (a2 - a1) as usize }
    } else {
        Delta::Backward { magnitude: (a1 - a2) as usize }
    }
}

/// The anchor for the second search: the first result when it was
/// confident, else the known position again.
pub open spec fn second_center(m1: MatchResult, current: Position) -> Position {
    match m1 {
        MatchResult::Confident { position, confidence } => position,
        MatchResult::NoConfidentMatch => current,
    }
}

/// The specified outcome of the whole resolution.
pub open spec fn resolve_spec(
    ps: Seq<Page>,
    raw1: Seq<String>,
    raw2: Seq<String>,
    current: Position,
    radius: int,
) -> DeltaResult {
    let m1 = match_near_spec(ps, raw1, current, radius);
    let m2 = match_near_spec(ps, raw2, second_center(m1, current), radius);
    let d = match (m1, m2) {
        (
            MatchResult::Confident { position: p1, confidence: c1 },
            MatchResult::Confident { position: p2, confidence: c2 },
        ) => delta_of(ps, p1, p2),
        _ => Delta::Unknown,
    };
    DeltaResult { first: m1, second: m2, delta: d }
}

impl Corpus {
    /// Resolves the direction and distance between two screenshots,
    /// searching windows of the given radius around the known position
    /// and then around the first result.
    pub fn resolve_delta(
        &self,
        query1: &Vec<String>,
        query2: &Vec<String>,
        current: Position,
        radius: usize,
    ) -> (r: DeltaResult)
        requires
            self.wf(),
        ensures
            r == resolve_spec(self.pages@, query1@, query2@, current, radius as int),
    {
        let m1 = self.match_query_near(query1, current, radius);
        let center2 = match m1 {
            MatchResult::Confident { position, confidence } => position,
            MatchResult::NoConfidentMatch => current,
        };
        let m2 = self.match_query_near(query2, center2, radius);
        let delta = match (m1, m2) {
            (
                MatchResult::Confident { position: p1, confidence: c1 },
                MatchResult::Confident { position: p2, confidence: c2 },
            ) => {
                let a1 = self.anchor_flat(p1);
                let a2 = self.anchor_flat(p2);
                if a1 == a2 {
                    Delta::Same
                } else if a2 > a1 {
                    Delta::Forward { magnitude: a2 - a1 }
                } else {
                    Delta::Backward { magnitude: a1 - a2 }
                }
            },
            _ => Delta::Unknown,
        };
        DeltaResult { first: m1, second: m2, delta }
    }
}

} // verus!
