//! Controller for the reader's page view.
//!
//! Owns the corpus of the open book together with the request
//! correlation state, and offers the operations the surrounding
//! application drives: dispatching a screenshot-position search or a
//! two-screenshot delta search, running the search itself (on whatever
//! thread the caller chooses), accepting completions as they arrive,
//! and switching books.  Everything it does is a thin, fully specified
//! composition of the corpus, matcher, delta and gateway contracts.

use vstd::prelude::*;

use crate::corpus::Corpus;
use crate::corpus::Position;
use crate::delta::resolve_spec;
use crate::gateway::Completion;
use crate::gateway::Gateway;
use crate::gateway::Outcome;
use crate::gateway::Request;
use crate::gateway::Ticket;
use crate::gateway::perform;
use crate::matcher::match_corpus_spec;
use crate::normalize::norm;

verus! {

/// The page-view controller: the indexed corpus of the open book and
/// the correlation state for its in-flight searches.
pub struct EpubPageController {
    pub corpus: Corpus,
    pub gateway: Gateway,
}

impl EpubPageController {
    /// Both halves are internally consistent.
    pub open spec fn wf(self) -> bool {
        self.corpus.wf() && self.gateway.wf()
    }

    /// Opens a book: indexes its pages and starts with no request
    /// outstanding.
    pub fn open_book(pages: &Vec<(u64, Vec<String>)>) -> (c: Self)
        requires
            forall|i: int, j: int|
                0 <= i < j < pages@.len() ==> (#[trigger] pages@[i]).0 < (#[trigger] pages@[j]).0,
        ensures
            c.wf(),
            c.corpus.pages@.len() == pages@.len(),
            forall|i: int|
                0 <= i < pages@.len() ==> (#[trigger] c.corpus.pages@[i]).id == pages@[i].0
                    && c.corpus.pages@[i].frags@.len() == pages@[i].1@.len(),
            forall|i: int, k: int|
                0 <= i < pages@.len() && 0 <= k < pages@[i].1@.len() ==> (
                #[trigger] c.corpus.pages@[i].frags@[k])@ == norm(pages@[i].1@[k]@),
            c.gateway.epoch == 0,
            c.gateway.next_id == 0,
            c.gateway.pending@ == Seq::<u64>::empty(),
    {
        EpubPageController { corpus: Corpus::build(pages), gateway: Gateway::new() }
    }

    /// Dispatches a new search: hands out its identity and records it
    /// as outstanding.  The corpus is untouched.
    pub fn begin_request(&mut self) -> (t: Ticket)
        requires
            old(self).wf(),
            old(self).gateway.next_id < u64::MAX,
        ensures
            final(self).wf(),
            final(self).corpus == old(self).corpus,
            t.request_id == old(self).gateway.next_id,
            t.epoch == old(self).gateway.epoch,
            final(self).gateway.epoch == old(self).gateway.epoch,
            final(self).gateway.next_id == old(self).gateway.next_id + 1,
            final(self).gateway.pending@ == old(self).gateway.pending@ + seq![t.request_id],
    {
        self.gateway.dispatch()
    }

    /// The work of one position search, as the worker runs it against
    /// the corpus snapshot: pure, so any thread may execute it.
    pub fn search(&self, t: Ticket, fragments: Vec<String>) -> (c: Completion)
        requires
            self.wf(),
        ensures
            c.request_id == t.request_id,
            c.epoch == t.epoch,
            c.outcome == Outcome::Matched(match_corpus_spec(self.corpus.pages@, fragments@)),
    {
        perform(&self.corpus, t, &Request::PositionMatch { fragments })
    }

    /// The work of one delta search between two screenshots, anchored
    /// at the last known position.
    pub fn reverse_search(
        &self,
        t: Ticket,
        first: Vec<String>,
        second: Vec<String>,
        current: Position,
        radius: usize,
    ) -> (c: Completion)
        requires
            self.wf(),
        ensures
            c.request_id == t.request_id,
            c.epoch == t.epoch,
            c.outcome == Outcome::Resolved(
                resolve_spec(self.corpus.pages@, first@, second@, current, radius as int),
            ),
    {
        perform(&self.corpus, t, &Request::DeltaMatch { first, second, current, radius })
    }

    /// Accepts a delivered completion exactly when it belongs to the
    /// current book and to a search still outstanding; a stale or
    /// repeated delivery is rejected and changes nothing.
    pub fn on_completion(&mut self, completion: &Completion) -> (ok: bool)
        requires
            old(self).wf(),
        ensures
            final(self).wf(),
            final(self).corpus == old(self).corpus,
            ok == (completion.epoch == old(self).gateway.epoch
                && old(self).gateway.pending@.contains(completion.request_id)),
            final(self).gateway.epoch == old(self).gateway.epoch,
            final(self).gateway.next_id == old(self).gateway.next_id,
            !ok ==> final(self).gateway.pending@ == old(self).gateway.pending@,
            ok ==> !final(self).gateway.pending@.contains(completion.request_id),
            forall|x: u64|
                x != completion.request_id ==> (final(self).gateway.pending@.contains(x) == old(
                    self,
                ).gateway.pending@.contains(x)),
    {
        self.gateway.accept(completion)
    }

    /// Switches to a different book: the new corpus replaces the old
    /// one and the epoch moves on, so completions of the old book's
    /// searches will be rejected on arrival.
    pub fn change_book(&mut self, pages: &Vec<(u64, Vec<String>)>)
        requires
            old(self).wf(),
            old(self).gateway.epoch < u64::MAX,
            forall|i: int, j: int|
                0 <= i < j < pages@.len() ==> (#[trigger] pages@[i]).0 < (#[trigger] pages@[j]).0,
        ensures
            final(self).wf(),
            final(self).gateway.epoch == old(self).gateway.epoch + 1,
            final(self).gateway.next_id == old(self).gateway.next_id,
            final(self).gateway.pending@ == Seq::<u64>::empty(),
            final(self).corpus.pages@.len() == pages@.len(),
    {
        self.gateway.book_changed();
        self.corpus = Corpus::build(pages);
    }
}

} // verus!
