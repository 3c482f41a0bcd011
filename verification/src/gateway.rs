//! Asynchronous job gateway.
//!
//! Resolution runs off the interactive thread: the caller dispatches a
//! request and later receives exactly one completion carrying the
//! request's identity and the corpus epoch it was issued against.  The
//! gateway is the verified correlation state: it hands out fresh
//! request identifiers, remembers which requests are outstanding, and
//! accepts each completion at most once — rejecting completions from a
//! replaced corpus, so a stale result can never be mistaken for a
//! current one.  The caller performs the actual thread handoff; the
//! work itself is `perform`, a pure function of the corpus snapshot
//! and the request.

use vstd::prelude::*;

use crate::corpus::Corpus;
use crate::corpus::Position;
use crate::delta::DeltaResult;
use crate::delta::resolve_spec;
use crate::matcher::MatchResult;
use crate::matcher::match_corpus_spec;

verus! {

/// Identity handed out at dispatch time: the request identifier and
/// the corpus epoch it was issued against.
#[derive(PartialEq, Eq, Structural, Clone, Copy, Debug)]
pub struct Ticket {
    pub request_id: u64,
    pub epoch: u64,
}

/// One resolution request, as plain values: the recognized fragments
/// of each screenshot.  A failed recognition is passed as an empty
/// fragment list and resolves to "no confident match".
pub enum Request {
    PositionMatch { fragments: Vec<String> },
    DeltaMatch { first: Vec<String>, second: Vec<String>, current: Position, radius: usize },
}

/// The payload of a completion.
#[derive(PartialEq, Eq, Structural, Clone, Copy, Debug)]
pub enum Outcome {
    Matched(MatchResult),
    Resolved(DeltaResult),
}

/// What a worker delivers back: the originating ticket and the
/// outcome.
#[derive(PartialEq, Eq, Structural, Clone, Copy, Debug)]
pub struct Completion {
    pub request_id: u64,
    pub epoch: u64,
    pub outcome: Outcome,
}

/// Executes one request against a corpus snapshot, tagging the result
/// with the originating ticket.
pub fn perform(corpus: &Corpus, ticket: Ticket, request: &Request) -> (c: Completion)
    requires
        corpus.wf(),
    ensures
        c.request_id == ticket.request_id,
        c.epoch == ticket.epoch,
        match *request {
            Request::PositionMatch { fragments } => c.outcome == Outcome::Matched(
                match_corpus_spec(corpus.pages@, fragments@),
            ),
            Request::DeltaMatch { first, second, current, radius } => c.outcome == Outcome::Resolved(
                resolve_spec(corpus.pages@, first@, second@, current, radius as int),
            ),
        },
{
    let outcome = match request {
        Request::PositionMatch { fragments } => Outcome::Matched(corpus.match_query(fragments)),
        Request::DeltaMatch { first, second, current, radius } => Outcome::Resolved(
            corpus.resolve_delta(first, second, *current, *radius),
        ),
    };
    Completion { request_id: ticket.request_id, epoch: ticket.epoch, outcome }
}

/// The correlation state on the caller's side.
pub struct Gateway {
    /// Epoch of the current corpus; bumped when the book changes.
    pub epoch: u64,
    /// Next request identifier to hand out.
    pub next_id: u64,
    /// Identifiers of dispatched requests not yet completed, in
    /// dispatch order.
    pub pending: Vec<u64>,
}

impl Gateway {
    /// Pending identifiers are strictly increasing (hence unique) and
    /// below the next identifier.
    pub open spec fn wf(self) -> bool {
        &&& forall|i: int, j: int|
            0 <= i < j < self.pending@.len() ==> (#[trigger] self.pending@[i]) < (#[trigger] self.pending@[j])
        &&& forall|i: int| 0 <= i < self.pending@.len() ==> #[trigger] self.pending@[i] < self.next_id
    }

    /// A fresh gateway for a newly opened book.
    pub fn new() -> (g: Gateway)
        ensures
            g.wf(),
            g.epoch == 0,
            g.next_id == 0,
            g.pending@ == Seq::<u64>::empty(),
    {
        Gateway { epoch: 0, next_id: 0, pending: Vec::new() }
    }

    /// Issues the identity of a new request: a fresh identifier, never
    /// handed out before, tagged with the current epoch.
    pub fn dispatch(&mut self) -> (t: Ticket)
        requires
            old(self).wf(),
            old(self).next_id < u64::MAX,
        ensures
            final(self).wf(),
            t.request_id == old(self).next_id,
            t.epoch == old(self).epoch,
            final(self).epoch == old(self).epoch,
            final(self).next_id == old(self).next_id + 1,
            final(self).pending@ == old(self).pending@ + seq![t.request_id],
    {
        let id = self.next_id;
        self.next_id = self.next_id + 1;
        self.pending.push(id);
        proof {
            assert(self.pending@ =~= old(self).pending@ + seq![id]);
        }
        Ticket { request_id: id, epoch: self.epoch }
    }

    /// Records that a different book was opened: the epoch moves on
    /// and every still-outstanding request of the old corpus is
    /// forgotten, so its eventual completion will be rejected.
    pub fn book_changed(&mut self)
        requires
            old(self).wf(),
            old(self).epoch < u64::MAX,
        ensures
            final(self).wf(),
            final(self).epoch == old(self).epoch + 1,
            final(self).next_id == old(self).next_id,
            final(self).pending@ == Seq::<u64>::empty(),
    {
        self.epoch = self.epoch + 1;
        self.pending = Vec::new();
    }

    /// Accepts a delivered completion if and only if it belongs to the
    /// current epoch and to a request that is still outstanding; each
    /// request is accepted at most once, and a completion from a
    /// replaced corpus is always rejected.
    pub fn accept(&mut self, completion: &Completion) -> (ok: bool)
        requires
            old(self).wf(),
        ensures
            final(self).wf(),
            ok == (completion.epoch == old(self).epoch && old(self).pending@.contains(
                completion.request_id,
            )),
            final(self).epoch == old(self).epoch,
            final(self).next_id == old(self).next_id,
            !ok ==> final(self).pending@ == old(self).pending@,
            ok ==> !final(self).pending@.contains(completion.request_id),
            forall|x: u64|
                x != completion.request_id ==> (final(self).pending@.contains(x) == old(
                    self,
                ).pending@.contains(x)),
            forall|i: int, j: int|
                0 <= i < j < final(self).pending@.len() ==> (#[trigger] final(self).pending@[i])
                    < (#[trigger] final(self).pending@[j]),
    {
        if completion.epoch != self.epoch {
            proof {
                assert(forall|x: u64|
                    self.pending@.contains(x) == old(self).pending@.contains(x));
            }
            return false;
        }
        let mut i: usize = 0;
        let n = self.pending.len();
        while i < n
            invariant
                self == old(self),
                self.wf(),
                completion.epoch == old(self).epoch,
                0 <= i <= n,
                n == self.pending@.len(),
                forall|t: int| 0 <= t < i ==> #[trigger] self.pending@[t] != completion.request_id,
            decreases n - i,
        {
            if self.pending[i] == completion.request_id {
                let ghost before = self.pending@;
                self.pending.remove(i);
                proof {
                    assert(before.contains(completion.request_id)) by {
                        assert(before[i as int] == completion.request_id);
                    }
                    let after = self.pending@;
                    assert(after =~= before.subrange(0, i as int) + before.subrange(
                        i + 1,
                        before.len() as int,
                    ));
                    assert forall|x: u64| x != completion.request_id implies (after.contains(x)
                        == before.contains(x)) by {
                        if before.contains(x) {
                            let w = choose|w: int| 0 <= w < before.len() && before[w] == x;
                            if w < i {
                                assert(after[w] == x);
                            } else {
                                assert(w > i);
                                assert(after[w - 1] == x);
                            }
                            assert(after.contains(x));
                        }
                        if after.contains(x) {
                            let w = choose|w: int| 0 <= w < after.len() && after[w] == x;
                            if w < i {
                                assert(before[w] == x);
                            } else {
                                assert(before[w + 1] == x);
                            }
                            assert(before.contains(x));
                        }
                    }
                    assert(!after.contains(completion.request_id)) by {
                        if after.contains(completion.request_id) {
                            let w = choose|w: int|
                                0 <= w < after.len() && after[w] == completion.request_id;
                            if w < i {
                                assert(before[w] == completion.request_id);
                            } else {
                                assert(before[w + 1] == completion.request_id);
                                assert(before[i as int] < before[w + 1]);
                            }
                        }
                    }
                }
                return true;
            }
            i = i + 1;
        }
        proof {
            assert(!old(self).pending@.contains(completion.request_id)) by {
                if old(self).pending@.contains(completion.request_id) {
                    let w = choose|w: int|
                        0 <= w < old(self).pending@.len() && old(self).pending@[w]
                            == completion.request_id;
                    assert(self.pending@[w] != completion.request_id);
                }
            }
        }
        false
    }
}

} // verus!
