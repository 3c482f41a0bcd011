//! Fragment matcher.
//!
//! Given a query — the fragments recognized from one screenshot — the
//! matcher slides a window of the query's length over a contiguous
//! range of the flattened corpus and scores every candidate window by
//! how many query fragments occur in it, scaled to thousandths.  The
//! best-scoring window wins; ties are broken towards a position hint if
//! one is supplied, then towards earlier corpus order.  The result is
//! only reported as confident when the best score reaches a fixed
//! threshold and no disjoint window comes within a fixed gap of it;
//! otherwise the outcome is an explicit "no confident match", never a
//! guess.  Queries are normalized exactly like the corpus, and capped
//! to a fixed number of fragments to bound the cost of a search.

use vstd::prelude::*;
use vstd::arithmetic::div_mod::lemma_div_by_multiple;
use vstd::arithmetic::div_mod::lemma_div_is_ordered;
use vstd::arithmetic::div_mod::lemma_div_of0;
use vstd::arithmetic::div_mod::lemma_multiply_divide_lt;

use crate::corpus::Corpus;
use crate::corpus::Position;
use crate::corpus::anchor_of;
use crate::corpus::window_hi_of;
use crate::corpus::window_lo_of;
use crate::corpus::flat_of;
use crate::corpus::frags_view;
use crate::corpus::locs_of;
use crate::normalize::lemma_normalize_idempotent;
use crate::normalize::norm;
use crate::normalize::normalize;

verus! {

/// Scores are expressed in thousandths: a window containing every
/// query fragment scores `SCALE`.
pub const SCALE: usize = 1000;

/// Minimum best score for a confident match.
pub const THRESHOLD: usize = 600;

/// Minimum lead of the best window over the best disjoint window; a
/// smaller lead is reported as ambiguity, not as a match.
pub const MIN_GAP: usize = 50;

/// Upper bound on the number of query fragments used for matching;
/// fragments beyond the cap are ignored to bound the cost of a search.
pub const QUERY_CAP: usize = 64;

/// The outcome of one match: a confident position with its score in
/// thousandths, or an explicit refusal to guess.
#[derive(PartialEq, Eq, Structural, Clone, Copy, Debug)]
pub enum MatchResult {
    Confident { position: Position, confidence: usize },
    NoConfidentMatch,
}

/// The views of a vector of raw text fragments.
pub open spec fn strs_view(qs: Seq<String>) -> Seq<Seq<char>> {
    Seq::new(qs.len(), |i: int| qs[i]@)
}

/// Normalizations of the raw fragments, in order, with fragments that
/// normalize to nothing dropped.
pub open spec fn prep_query(raw: Seq<Seq<char>>) -> Seq<Seq<char>>
    decreases raw.len(),
{
    if raw.len() == 0 {
        Seq::empty()
    } else {
        let rest = prep_query(raw.drop_last());
        if norm(raw.last()).len() == 0 {
            rest
        } else {
            rest + seq![norm(raw.last())]
        }
    }
}

/// Both sides of every comparison are in normal form: a prepared
/// query holds only nonempty, already-normalized fragments, just like
/// the corpus.
pub proof fn lemma_prep_query_normalized(raw: Seq<Seq<char>>)
    ensures
        forall|i: int|
            0 <= i < prep_query(raw).len() ==> norm(#[trigger] prep_query(raw)[i]) == prep_query(
                raw,
            )[i] && prep_query(raw)[i].len() > 0,
    decreases raw.len(),
{
    if raw.len() > 0 {
        lemma_prep_query_normalized(raw.drop_last());
        lemma_normalize_idempotent(raw.last());
        let rest = prep_query(raw.drop_last());
        assert forall|i: int|
            0 <= i < prep_query(raw).len() implies norm(#[trigger] prep_query(raw)[i])
            == prep_query(raw)[i] && prep_query(raw)[i].len() > 0 by {
            if norm(raw.last()).len() != 0 && i == rest.len() {
                assert(prep_query(raw)[i] == norm(raw.last()));
            } else {
                assert(prep_query(raw)[i] == rest[i]);
            }
        }
    }
}

/// The query actually matched: the first `QUERY_CAP` raw fragments,
/// normalized, with empty ones dropped.
pub open spec fn capped_query(raw: Seq<Seq<char>>) -> Seq<Seq<char>> {
    if raw.len() <= QUERY_CAP {
        prep_query(raw)
    } else {
        prep_query(raw.take(QUERY_CAP as int))
    }
}

/// End of the candidate window starting at `s`: `m` fragments, clipped
/// to the end of the search range.
pub open spec fn win_end(s: int, m: int, hi: int) -> int {
    if s + m <= hi {
        s + m
    } else {
        hi
    }
}

/// Whether fragment `t` occurs in `corp[s..e)`.
pub open spec fn range_has(corp: Seq<Seq<char>>, s: int, e: int, t: Seq<char>) -> bool {
    exists|j: int| s <= j < e && #[trigger] corp[j] == t
}

/// Number of query fragments that occur in `corp[s..e)`.
pub open spec fn hits(corp: Seq<Seq<char>>, s: int, e: int, q: Seq<Seq<char>>) -> nat
    decreases q.len(),
{
    if q.len() == 0 {
        0
    } else {
        hits(corp, s, e, q.drop_last()) + if range_has(corp, s, e, q.last()) {
            1nat
        } else {
            0nat
        }
    }
}

/// At most every query fragment can be found.
pub proof fn lemma_hits_le(corp: Seq<Seq<char>>, s: int, e: int, q: Seq<Seq<char>>)
    ensures
        hits(corp, s, e, q) <= q.len(),
    decreases q.len(),
{
    if q.len() > 0 {
        lemma_hits_le(corp, s, e, q.drop_last());
    }
}

/// Score, in thousandths, of the candidate window starting at `s`
/// within the search range ending at `hi`.
pub open spec fn score_at(corp: Seq<Seq<char>>, q: Seq<Seq<char>>, s: int, hi: int) -> int {
    hits(corp, s, win_end(s, q.len() as int, hi), q) * (SCALE as int) / (q.len() as int)
}

/// Distance of a candidate start from the position hint; zero when no
/// hint was supplied.
pub open spec fn hint_dist(hint: Option<int>, s: int) -> int {
    match hint {
        Option::None => 0,
        Option::Some(h) => if s >= h {
            s - h
        } else {
            h - s
        },
    }
}

/// Strict preference between candidate starts: higher score first,
/// then nearer the hint, then earlier in corpus order.
pub open spec fn prefer(
    corp: Seq<Seq<char>>,
    q: Seq<Seq<char>>,
    hint: Option<int>,
    hi: int,
    s1: int,
    s2: int,
) -> bool {
    ||| score_at(corp, q, s1, hi) > score_at(corp, q, s2, hi)
    ||| (score_at(corp, q, s1, hi) == score_at(corp, q, s2, hi) && hint_dist(hint, s1) < hint_dist(
        hint,
        s2,
    ))
    ||| (score_at(corp, q, s1, hi) == score_at(corp, q, s2, hi) && hint_dist(hint, s1) == hint_dist(
        hint,
        s2,
    ) && s1 < s2)
}

/// The preferred candidate start in `[lo, last]`.
pub open spec fn best_start(
    corp: Seq<Seq<char>>,
    q: Seq<Seq<char>>,
    hint: Option<int>,
    hi: int,
    lo: int,
    last: int,
) -> int
    decreases last - lo,
{
    if last <= lo {
        lo
    } else {
        let b = best_start(corp, q, hint, hi, lo, last - 1);
        if prefer(corp, q, hint, hi, last, b) {
            last
        } else {
            b
        }
    }
}

/// Whether two candidate windows of length `m` do not overlap.
pub open spec fn disjoint_at(s: int, b: int, m: int) -> bool {
    s + m <= b || b + m <= s
}

/// The best score among candidates in `[lo, last]` whose windows do
/// not overlap the best window; `-1` when there is none.
pub open spec fn runner_score(
    corp: Seq<Seq<char>>,
    q: Seq<Seq<char>>,
    hi: int,
    lo: int,
    last: int,
    b: int,
) -> int
    decreases last - lo + 1,
{
    if last < lo {
        -1
    } else {
        let r = runner_score(corp, q, hi, lo, last - 1, b);
        if disjoint_at(last, b, q.len() as int) && score_at(corp, q, last, hi) > r {
            score_at(corp, q, last, hi)
        } else {
            r
        }
    }
}

/// The whole decision over the flattened corpus: the winning start and
/// its score, or nothing when the query is empty, the range is empty,
/// the best score is below the threshold, or a disjoint window comes
/// too close to the best score.
pub open spec fn match_flat(
    corp: Seq<Seq<char>>,
    q: Seq<Seq<char>>,
    hint: Option<int>,
    lo: int,
    hi: int,
) -> Option<(int, int)> {
    let m = q.len() as int;
    if m == 0 || lo >= hi {
        Option::None
    } else {
        let last = if hi - lo >= m {
            hi - m
        } else {
            lo
        };
        let b = best_start(corp, q, hint, hi, lo, last);
        let sc = score_at(corp, q, b, hi);
        let r = runner_score(corp, q, hi, lo, last, b);
        if sc >= THRESHOLD as int && (r < 0 || sc - r >= MIN_GAP as int) {
            Option::Some((b, sc))
        } else {
            Option::None
        }
    }
}

/// `match_flat`, with the winning flat index translated to a position.
pub open spec fn match_spec(
    ps: Seq<crate::corpus::Page>,
    q: Seq<Seq<char>>,
    hint: Option<int>,
    lo: int,
    hi: int,
) -> MatchResult {
    match match_flat(flat_of(ps), q, hint, lo, hi) {
        Option::None => MatchResult::NoConfidentMatch,
        Option::Some(bs) => MatchResult::Confident {
            position: locs_of(ps)[bs.0],
            confidence: bs.1 as usize,
        },
    }
}

/// The specified result of matching a raw query against the whole
/// corpus without a hint.
pub open spec fn match_corpus_spec(ps: Seq<crate::corpus::Page>, rawq: Seq<String>) -> MatchResult {
    match_spec(ps, capped_query(strs_view(rawq)), Option::None, 0, flat_of(ps).len() as int)
}

/// The specified result of matching a raw query against the window of
/// the given radius around a position, preferring candidates near that
/// position.
pub open spec fn match_near_spec(
    ps: Seq<crate::corpus::Page>,
    rawq: Seq<String>,
    center: Position,
    radius: int,
) -> MatchResult {
    match_spec(
        ps,
        capped_query(strs_view(rawq)),
        Option::Some(anchor_of(ps, center)),
        window_lo_of(ps, center, radius),
        window_hi_of(ps, center, radius),
    )
}

/// The exec option of a start index, as seen by specifications.
pub open spec fn opt_int(h: Option<usize>) -> Option<int> {
    match h {
        Option::None => Option::None,
        Option::Some(x) => Option::Some(x as int),
    }
}

/// Whether two fragments are equal.
fn eq_frag(a: &Vec<char>, b: &Vec<char>) -> (r: bool)
    ensures
        r == (a@ == b@),
{
    if a.len() != b.len() {
        return false;
    }
    let mut i: usize = 0;
    while i < a.len()
        invariant
            0 <= i <= a@.len(),
            a@.len() == b@.len(),
            forall|t: int| 0 <= t < i ==> a@[t] == b@[t],
        decreases a@.len() - i,
    {
        if a[i] != b[i] {
            return false;
        }
        i = i + 1;
    }
    proof {
        assert(a@ =~= b@);
    }
    true
}

/// Normalizes a raw query and caps it for matching.
pub fn prepare_query(query: &Vec<String>) -> (q: Vec<Vec<char>>)
    ensures
        frags_view(q) == capped_query(strs_view(query@)),
        q@.len() <= QUERY_CAP,
{
    let cap: usize = if query.len() < QUERY_CAP {
        query.len()
    } else {
        QUERY_CAP
    };
    let ghost raw = strs_view(query@);
    let ghost goal = if raw.len() <= QUERY_CAP { raw } else { raw.take(QUERY_CAP as int) };
    proof {
        assert(raw.take(cap as int) =~= goal);
    }
    let mut out: Vec<Vec<char>> = Vec::new();
    let mut i: usize = 0;
    while i < cap
        invariant
            0 <= i <= cap,
            cap <= raw.len(),
            cap <= QUERY_CAP,
            raw == strs_view(query@),
            query@.len() == raw.len(),
            out@.len() <= i,
            frags_view(out) == prep_query(raw.take(i as int)),
        decreases cap - i,
    {
        let nf = normalize(query[i].as_str());
        proof {
            assert(raw.take(i + 1).drop_last() =~= raw.take(i as int));
            assert(raw.take(i + 1).last() == query@[i as int]@);
        }
        if nf.len() > 0 {
            let ghost old_out = out@;
            out.push(nf);
            proof {
                assert forall|t: int| 0 <= t < out@.len() implies frags_view(out)[t] == (
                prep_query(raw.take(i as int)) + seq![norm(query@[i as int]@)])[t] by {
                    if t < old_out.len() {
                        assert(out@[t] == old_out[t]);
                        assert(frags_view(out)[t] == old_out[t]@);
                    } else {
                        assert(out@[t]@ == norm(query@[i as int]@));
                    }
                }
                assert(frags_view(out) =~= prep_query(raw.take(i as int)) + seq![norm(
                    query@[i as int]@,
                )]);
                assert(frags_view(out) == prep_query(raw.take(i + 1)));
            }
        } else {
            proof {
                assert(frags_view(out) == prep_query(raw.take(i + 1)));
            }
        }
        i = i + 1;
    }
    proof {
        assert(raw.take(cap as int) =~= goal);
        assert(frags_view(out) == capped_query(raw));
    }
    out
}

impl Corpus {
    /// Whether a query fragment occurs in the flat range `[s, e)`.
    fn range_has_x(&self, s: usize, e: usize, t: &Vec<char>) -> (r: bool)
        requires
            self.wf(),
            s <= e <= flat_of(self.pages@).len(),
        ensures
            r == range_has(flat_of(self.pages@), s as int, e as int, t@),
    {
        let ghost corp = flat_of(self.pages@);
        let mut j: usize = s;
        while j < e
            invariant
                s <= j <= e <= corp.len(),
                self.wf(),
                corp == flat_of(self.pages@),
                forall|u: int| s <= u < j ==> #[trigger] corp[u] != t@,
            decreases e - j,
        {
            if eq_frag(&self.flat[j], t) {
                proof {
                    assert(corp[j as int] == t@);
                }
                return true;
            }
            j = j + 1;
        }
        false
    }

    /// Score of the candidate window starting at `s`, in thousandths.
    fn score_at_x(&self, q: &Vec<Vec<char>>, s: usize, hi: usize) -> (sc: usize)
        requires
            self.wf(),
            s <= hi <= flat_of(self.pages@).len(),
            1 <= q@.len() <= QUERY_CAP,
        ensures
            sc == score_at(flat_of(self.pages@), frags_view(*q), s as int, hi as int),
    {
        let ghost corp = flat_of(self.pages@);
        let ghost qv = frags_view(*q);
        let m = q.len();
        let e: usize = if hi - s >= m {
            s + m
        } else {
            hi
        };
        proof {
            assert(e as int == win_end(s as int, qv.len() as int, hi as int));
        }
        let mut cnt: usize = 0;
        let mut i: usize = 0;
        while i < m
            invariant
                0 <= i <= m,
                m == qv.len(),
                qv == frags_view(*q),
                m == q@.len(),
                self.wf(),
                corp == flat_of(self.pages@),
                s <= e <= corp.len(),
                cnt <= i,
                cnt == hits(corp, s as int, e as int, qv.take(i as int)),
            decreases m - i,
        {
            proof {
                assert(qv.take(i + 1).drop_last() =~= qv.take(i as int));
                assert(qv.take(i + 1).last() == q@[i as int]@);
            }
            if self.range_has_x(s, e, &q[i]) {
                cnt = cnt + 1;
            }
            i = i + 1;
        }
        proof {
            assert(qv.take(m as int) =~= qv);
            lemma_hits_le(corp, s as int, e as int, qv);
            assert(cnt * SCALE <= QUERY_CAP * SCALE) by (nonlinear_arith)
                requires
                    cnt <= QUERY_CAP,
            ;
        }
        cnt * SCALE / m
    }

    /// Finds the preferred candidate start in `[lo, last]` and its
    /// score.
    fn best_scan(
        &self,
        q: &Vec<Vec<char>>,
        hint: Option<usize>,
        lo: usize,
        last: usize,
        hi: usize,
    ) -> (res: (usize, usize))
        requires
            self.wf(),
            lo <= last < hi <= flat_of(self.pages@).len(),
            1 <= q@.len() <= QUERY_CAP,
        ensures
            res.0 == best_start(
                flat_of(self.pages@),
                frags_view(*q),
                opt_int(hint),
                hi as int,
                lo as int,
                last as int,
            ),
            res.1 == score_at(flat_of(self.pages@), frags_view(*q), res.0 as int, hi as int),
            lo <= res.0 <= last,
    {
        let ghost corp = flat_of(self.pages@);
        let ghost qv = frags_view(*q);
        let ghost h = opt_int(hint);
        let mut b: usize = lo;
        let mut bsc: usize = self.score_at_x(q, lo, hi);
        let mut i: usize = lo + 1;
        while i <= last
            invariant
                lo + 1 <= i <= last + 1,
                lo <= last < hi <= corp.len(),
                self.wf(),
                corp == flat_of(self.pages@),
                qv == frags_view(*q),
                1 <= q@.len() <= QUERY_CAP,
                h == opt_int(hint),
                lo <= b < i,
                b == best_start(corp, qv, h, hi as int, lo as int, i - 1),
                bsc == score_at(corp, qv, b as int, hi as int),
            decreases last + 1 - i,
        {
            let sc = self.score_at_x(q, i, hi);
            let take_it: bool = if sc > bsc {
                true
            } else if sc == bsc {
                match hint {
                    Option::Some(hp) => {
                        let di = if i >= hp {
                            i - hp
                        } else {
                            hp - i
                        };
                        let db = if b >= hp {
                            b - hp
                        } else {
                            hp - b
                        };
                        di < db
                    },
                    Option::None => false,
                }
            } else {
                false
            };
            proof {
                assert(take_it == prefer(corp, qv, h, hi as int, i as int, b as int));
            }
            if take_it {
                b = i;
                bsc = sc;
            }
            proof {
                assert(b == best_start(corp, qv, h, hi as int, lo as int, i as int));
            }
            i = i + 1;
        }
        (b, bsc)
    }

    /// Finds the best score among candidates in `[lo, last]` whose
    /// windows do not overlap the best window; reports whether any
    /// such candidate exists.
    fn runner_scan(&self, q: &Vec<Vec<char>>, lo: usize, last: usize, hi: usize, b: usize) -> (res:
        (bool, usize))
        requires
            self.wf(),
            lo <= last < hi <= flat_of(self.pages@).len(),
            1 <= q@.len() <= QUERY_CAP,
        ensures
            runner_score(
                flat_of(self.pages@),
                frags_view(*q),
                hi as int,
                lo as int,
                last as int,
                b as int,
            ) == if res.0 {
                res.1 as int
            } else {
                -1
            },
    {
        let ghost corp = flat_of(self.pages@);
        let ghost qv = frags_view(*q);
        let m = q.len();
        let mut has: bool = false;
        let mut rsc: usize = 0;
        let mut t: usize = lo;
        while t <= last
            invariant
                lo <= t <= last + 1,
                lo <= last < hi <= corp.len(),
                self.wf(),
                corp == flat_of(self.pages@),
                qv == frags_view(*q),
                1 <= q@.len() <= QUERY_CAP,
                m == q@.len(),
                runner_score(corp, qv, hi as int, lo as int, t - 1, b as int) == if has {
                    rsc as int
                } else {
                    -1
                },
            decreases last + 1 - t,
        {
            let d = if t >= b {
                t - b
            } else {
                b - t
            };
            if d >= m {
                let sc = self.score_at_x(q, t, hi);
                proof {
                    assert(disjoint_at(t as int, b as int, qv.len() as int));
                }
                let upd: bool = if has { sc > rsc } else { true };
                if upd {
                    has = true;
                    rsc = sc;
                }
            } else {
                proof {
                    assert(!disjoint_at(t as int, b as int, qv.len() as int));
                }
            }
            t = t + 1;
        }
        (has, rsc)
    }

    /// Matches a prepared query against the flat range `[lo, hi)` of
    /// the corpus, preferring candidates near the hint.
    fn match_prepared(&self, q: &Vec<Vec<char>>, hint: Option<usize>, lo: usize, hi: usize) -> (r:
        MatchResult)
        requires
            self.wf(),
            lo <= hi <= flat_of(self.pages@).len(),
            q@.len() <= QUERY_CAP,
        ensures
            r == match_spec(self.pages@, frags_view(*q), opt_int(hint), lo as int, hi as int),
    {
        let ghost corp = flat_of(self.pages@);
        let ghost qv = frags_view(*q);
        let m = q.len();
        if m == 0 || lo >= hi {
            return MatchResult::NoConfidentMatch;
        }
        let last: usize = if hi - lo >= m {
            hi - m
        } else {
            lo
        };
        let bb = self.best_scan(q, hint, lo, last, hi);
        let b = bb.0;
        let sc = bb.1;
        let rr = self.runner_scan(q, lo, last, hi, b);
        let no_tie: bool = if rr.0 { sc >= MIN_GAP && sc - MIN_GAP >= rr.1 } else { true };
        let confident: bool = sc >= THRESHOLD && no_tie;
        if confident {
            let position = self.location_at(b);
            MatchResult::Confident { position, confidence: sc }
        } else {
            MatchResult::NoConfidentMatch
        }
    }

    /// Matches the fragments recognized from one screenshot against
    /// the whole corpus.  The query is normalized like the corpus and
    /// capped; an empty or unrecognizable query yields "no confident
    /// match".
    pub fn match_query(&self, query: &Vec<String>) -> (r: MatchResult)
        requires
            self.wf(),
        ensures
            r == match_corpus_spec(self.pages@, query@),
    {
        let q = prepare_query(query);
        let n = self.len();
        self.match_prepared(&q, Option::None, 0, n)
    }

    /// Matches the fragments recognized from one screenshot against
    /// the window of the given radius around a known position,
    /// preferring candidates near it; repeated text elsewhere in the
    /// book then cannot raise false ties.
    pub fn match_query_near(&self, query: &Vec<String>, center: Position, radius: usize) -> (r:
        MatchResult)
        requires
            self.wf(),
        ensures
            r == match_near_spec(self.pages@, query@, center, radius as int),
    {
        let q = prepare_query(query);
        let a = self.anchor_flat(center);
        let w = self.window_range(center, radius);
        self.match_prepared(&q, Option::Some(a), w.0, w.1)
    }
}

/// A score is a fraction of `SCALE`: never negative, never above it.
pub proof fn lemma_score_bounds(corp: Seq<Seq<char>>, q: Seq<Seq<char>>, s: int, hi: int)
    requires
        1 <= q.len(),
    ensures
        0 <= score_at(corp, q, s, hi) <= SCALE as int,
{
    let m = q.len() as int;
    let e = win_end(s, m, hi);
    lemma_hits_le(corp, s, e, q);
    let h = hits(corp, s, e, q) as int;
    lemma_div_of0(m);
    lemma_div_is_ordered(0, h * (SCALE as int), m);
    lemma_div_is_ordered(h * (SCALE as int), m * (SCALE as int), m);
    lemma_div_by_multiple(SCALE as int, m);
}

/// When every query fragment occurs in the window, every one is
/// counted.
proof fn lemma_hits_full(corp: Seq<Seq<char>>, s: int, e: int, q: Seq<Seq<char>>)
    requires
        forall|i: int| 0 <= i < q.len() ==> range_has(corp, s, e, #[trigger] q[i]),
    ensures
        hits(corp, s, e, q) == q.len(),
    decreases q.len(),
{
    if q.len() > 0 {
        lemma_hits_full(corp, s, e, q.drop_last());
    }
}

/// When no query fragment occurs in the window, none is counted.
proof fn lemma_hits_zero(corp: Seq<Seq<char>>, s: int, e: int, q: Seq<Seq<char>>)
    requires
        forall|i: int| 0 <= i < q.len() ==> !range_has(corp, s, e, #[trigger] q[i]),
    ensures
        hits(corp, s, e, q) == 0,
    decreases q.len(),
{
    if q.len() > 0 {
        lemma_hits_zero(corp, s, e, q.drop_last());
    }
}

/// A query fragment that does not occur in the window is not counted,
/// so the count stays below the query length.
proof fn lemma_hits_missing(corp: Seq<Seq<char>>, s: int, e: int, q: Seq<Seq<char>>, i0: int)
    requires
        0 <= i0 < q.len(),
        !range_has(corp, s, e, q[i0]),
    ensures
        hits(corp, s, e, q) < q.len(),
    decreases q.len(),
{
    if i0 == q.len() - 1 {
        lemma_hits_le(corp, s, e, q.drop_last());
    } else {
        assert(q.drop_last()[i0] == q[i0]);
        lemma_hits_missing(corp, s, e, q.drop_last(), i0);
    }
}

/// The preferred candidate lies in the candidate range.
proof fn lemma_best_in_range(
    corp: Seq<Seq<char>>,
    q: Seq<Seq<char>>,
    hint: Option<int>,
    hi: int,
    lo: int,
    last: int,
)
    requires
        lo <= last,
    ensures
        lo <= best_start(corp, q, hint, hi, lo, last) <= last,
    decreases last - lo,
{
    if last > lo {
        lemma_best_in_range(corp, q, hint, hi, lo, last - 1);
    }
}

/// No candidate scores above the preferred one.  Quantified
/// conclusions over a bare integer variable need a term to trigger on;
/// `t + 0` serves as that term here and in the lemmas below.
proof fn lemma_best_score_max(
    corp: Seq<Seq<char>>,
    q: Seq<Seq<char>>,
    hint: Option<int>,
    hi: int,
    lo: int,
    last: int,
)
    requires
        lo <= last,
    ensures
        forall|t: int|
            lo <= t <= last ==> score_at(corp, q, best_start(corp, q, hint, hi, lo, last), hi)
                >= score_at(corp, q, #[trigger] (t + 0), hi),
    decreases last - lo,
{
    if last > lo {
        lemma_best_score_max(corp, q, hint, hi, lo, last - 1);
    }
}

/// A candidate strictly preferred to every other is the one found.
proof fn lemma_best_is(
    corp: Seq<Seq<char>>,
    q: Seq<Seq<char>>,
    hint: Option<int>,
    hi: int,
    lo: int,
    last: int,
    s: int,
)
    requires
        lo <= s <= last,
        forall|t: int| lo <= t <= last && t != s ==> prefer(corp, q, hint, hi, s, #[trigger] (t + 0)),
    ensures
        best_start(corp, q, hint, hi, lo, last) == s,
    decreases last - lo,
{
    if last <= lo {
    } else {
        let b = best_start(corp, q, hint, hi, lo, last - 1);
        lemma_best_in_range(corp, q, hint, hi, lo, last - 1);
        if s <= last - 1 {
            lemma_best_is(corp, q, hint, hi, lo, last - 1, s);
            assert(prefer(corp, q, hint, hi, s, last + 0));
            assert(!prefer(corp, q, hint, hi, last, s));
        } else {
            assert(prefer(corp, q, hint, hi, s, b + 0));
        }
    }
}

/// The runner-up score is at least the score of every candidate whose
/// window avoids the best one.
proof fn lemma_runner_ge(
    corp: Seq<Seq<char>>,
    q: Seq<Seq<char>>,
    hi: int,
    lo: int,
    last: int,
    b: int,
)
    ensures
        forall|t: int|
            lo <= t <= last && disjoint_at(t, b, q.len() as int) ==> runner_score(
                corp,
                q,
                hi,
                lo,
                last,
                b,
            ) >= score_at(corp, q, #[trigger] (t + 0), hi),
    decreases last - lo + 1,
{
    if last >= lo {
        lemma_runner_ge(corp, q, hi, lo, last - 1, b);
    }
}

/// The runner-up score is bounded by any bound on the scores of the
/// candidates whose windows avoid the best one.
proof fn lemma_runner_le(
    corp: Seq<Seq<char>>,
    q: Seq<Seq<char>>,
    hi: int,
    lo: int,
    last: int,
    b: int,
    bound: int,
)
    requires
        bound >= -1,
        forall|t: int|
            lo <= t <= last && disjoint_at(t, b, q.len() as int) ==> score_at(
                corp,
                q,
                #[trigger] (t + 0),
                hi,
            ) <= bound,
    ensures
        runner_score(corp, q, hi, lo, last, b) <= bound,
    decreases last - lo + 1,
{
    if last >= lo {
        lemma_runner_le(corp, q, hi, lo, last - 1, b, bound);
        if disjoint_at(last, b, q.len() as int) && lo <= last {
            assert(score_at(corp, q, last + 0, hi) <= bound);
        }
    }
}

/// Exact-match sanity: when the query occurs verbatim at one place in
/// the corpus and its fragments occur nowhere else, matching the whole
/// corpus finds exactly that place, with a full score above the
/// threshold.
#[verifier::rlimit(100)]
pub proof fn lemma_exact_match_found(ps: Seq<crate::corpus::Page>, q: Seq<Seq<char>>, s: int)
    requires
        1 <= q.len(),
        0 <= s,
        s + q.len() <= flat_of(ps).len(),
        forall|i: int| 0 <= i < q.len() ==> flat_of(ps)[s + i] == #[trigger] q[i],
        forall|i: int, j: int|
            0 <= i < q.len() && 0 <= j < flat_of(ps).len() && (#[trigger] flat_of(ps)[j]) == (
            #[trigger] q[i]) ==> j == s + i,
    ensures
        match_spec(ps, q, Option::None, 0, flat_of(ps).len() as int) == (MatchResult::Confident {
            position: locs_of(ps)[s],
            confidence: SCALE,
        }),
{
    let corp = flat_of(ps);
    let n = corp.len() as int;
    let m = q.len() as int;
    let last = n - m;
    assert(win_end(s, m, n) == s + m);
    assert forall|i: int| 0 <= i < q.len() implies range_has(corp, s, s + m, #[trigger] q[i]) by {
        assert(corp[s + i] == q[i]);
    }
    lemma_hits_full(corp, s, s + m, q);
    lemma_div_by_multiple(SCALE as int, m);
    assert(score_at(corp, q, s, n) == SCALE as int);
    assert forall|t: int| 0 <= t <= last && t != s implies prefer(
        corp,
        q,
        Option::None,
        n,
        s,
        #[trigger] (t + 0),
    ) by {
        let e = win_end(t, m, n);
        assert(e == t + m);
        if t > s {
            // The query's first fragment lives left of this window.
            assert(!range_has(corp, t, e, q[0])) by {
                if range_has(corp, t, e, q[0]) {
                    let j = choose|j: int| t <= j < e && #[trigger] corp[j] == q[0];
                    assert(j == s);
                }
            }
            lemma_hits_missing(corp, t, e, q, 0);
        } else {
            // The query's last fragment lives right of this window.
            assert(!range_has(corp, t, e, q[m - 1])) by {
                if range_has(corp, t, e, q[m - 1]) {
                    let j = choose|j: int| t <= j < e && #[trigger] corp[j] == q[m - 1];
                    assert(j == s + m - 1);
                }
            }
            lemma_hits_missing(corp, t, e, q, m - 1);
        }
        let h = hits(corp, t, e, q) as int;
        lemma_multiply_divide_lt(h * (SCALE as int), m, SCALE as int);
        assert(score_at(corp, q, t + 0, n) < SCALE as int);
    }
    lemma_best_is(corp, q, Option::None, n, 0, last, s);
    assert forall|t: int|
        0 <= t <= last && disjoint_at(t, s, q.len() as int) implies score_at(
        corp,
        q,
        #[trigger] (t + 0),
        n,
    ) <= SCALE - MIN_GAP by {
        let e = win_end(t, m, n);
        assert forall|i: int| 0 <= i < q.len() implies !range_has(corp, t, e, #[trigger] q[i]) by {
            if range_has(corp, t, e, q[i]) {
                let j = choose|j: int| t <= j < e && #[trigger] corp[j] == q[i];
                assert(j == s + i);
            }
        }
        lemma_hits_zero(corp, t, e, q);
        lemma_div_of0(m);
    }
    lemma_runner_le(corp, q, n, 0, last, s, SCALE - MIN_GAP);
    assert(match_flat(corp, q, Option::None, 0, n) == Option::Some((s, SCALE as int)));
}

/// No false positives on disjoint vocabulary: a query none of whose
/// fragments occurs anywhere in the corpus never yields a confident
/// match.
pub proof fn lemma_disjoint_vocabulary(ps: Seq<crate::corpus::Page>, q: Seq<Seq<char>>)
    requires
        forall|i: int, j: int|
            0 <= i < q.len() && 0 <= j < flat_of(ps).len() ==> #[trigger] q[i] != (
            #[trigger] flat_of(ps)[j]),
    ensures
        match_spec(ps, q, Option::None, 0, flat_of(ps).len() as int)
            == MatchResult::NoConfidentMatch,
{
    let corp = flat_of(ps);
    let n = corp.len() as int;
    let m = q.len() as int;
    if m == 0 || n == 0 {
    } else {
        let last = if n - 0 >= m {
            n - m
        } else {
            0
        };
        let b = best_start(corp, q, Option::None, n, 0, last);
        lemma_best_in_range(corp, q, Option::None, n, 0, last);
        let e = win_end(b, m, n);
        assert forall|i: int| 0 <= i < q.len() implies !range_has(corp, b, e, #[trigger] q[i]) by {
            if range_has(corp, b, e, q[i]) {
                let j = choose|j: int| b <= j < e && #[trigger] corp[j] == q[i];
                assert(q[i] != corp[j]);
            }
        }
        lemma_hits_zero(corp, b, e, q);
        lemma_div_of0(m);
        assert(score_at(corp, q, b, n) == 0);
    }
}

/// A confident outcome never understates or overstates itself: its
/// confidence lies between the threshold and the full score, and a
/// low-confidence alignment is never reported as a match.
pub proof fn lemma_confidence_within_bounds(
    ps: Seq<crate::corpus::Page>,
    q: Seq<Seq<char>>,
    hint: Option<int>,
    lo: int,
    hi: int,
)
    ensures
        match match_spec(ps, q, hint, lo, hi) {
            MatchResult::Confident { position, confidence } => THRESHOLD <= confidence <= SCALE,
            MatchResult::NoConfidentMatch => true,
        },
{
    let corp = flat_of(ps);
    let m = q.len() as int;
    if m == 0 || lo >= hi {
    } else {
        let last = if hi - lo >= m {
            hi - m
        } else {
            lo
        };
        let b = best_start(corp, q, hint, hi, lo, last);
        lemma_score_bounds(corp, q, b, hi);
    }
}

/// Determinism: the match outcome is a function of the corpus and the
/// query alone, so identical calls yield identical results.
pub proof fn lemma_match_deterministic(
    ps: Seq<crate::corpus::Page>,
    rawq: Seq<String>,
    r1: MatchResult,
    r2: MatchResult,
)
    requires
        r1 == match_corpus_spec(ps, rawq),
        r2 == match_corpus_spec(ps, rawq),
    ensures
        r1 == r2,
{
}

/// Ambiguity detection: when two candidate windows at least a window
/// apart share the highest score, matching the whole corpus refuses
/// to pick one.
#[verifier::rlimit(100)]
pub proof fn lemma_tied_windows_ambiguous(
    ps: Seq<crate::corpus::Page>,
    q: Seq<Seq<char>>,
    s1: int,
    s2: int,
)
    requires
        1 <= q.len() <= flat_of(ps).len(),
        0 <= s1,
        s1 + 2 * q.len() <= s2,
        s2 <= flat_of(ps).len() - q.len(),
        score_at(flat_of(ps), q, s1, flat_of(ps).len() as int) == score_at(
            flat_of(ps),
            q,
            s2,
            flat_of(ps).len() as int,
        ),
        forall|t: int|
            0 <= t <= flat_of(ps).len() - q.len() ==> score_at(
                flat_of(ps),
                q,
                #[trigger] (t + 0),
                flat_of(ps).len() as int,
            ) <= score_at(flat_of(ps), q, s1, flat_of(ps).len() as int),
    ensures
        match_spec(ps, q, Option::None, 0, flat_of(ps).len() as int)
            == MatchResult::NoConfidentMatch,
{
    let corp = flat_of(ps);
    let n = corp.len() as int;
    let m = q.len() as int;
    let last = n - m;
    let b = best_start(corp, q, Option::None, n, 0, last);
    lemma_best_in_range(corp, q, Option::None, n, 0, last);
    lemma_best_score_max(corp, q, Option::None, n, 0, last);
    let sc = score_at(corp, q, b, n);
    assert(sc <= score_at(corp, q, s1, n)) by {
        assert(score_at(corp, q, b + 0, n) <= score_at(corp, q, s1, n));
    }
    assert(sc >= score_at(corp, q, s1 + 0, n));
    assert(sc == score_at(corp, q, s1, n));
    lemma_score_bounds(corp, q, s1, n);
    lemma_runner_ge(corp, q, n, 0, last, b);
    let r = runner_score(corp, q, n, 0, last, b);
    if disjoint_at(s1, b, q.len() as int) {
        assert(r >= score_at(corp, q, s1 + 0, n));
    } else {
        assert(disjoint_at(s2, b, q.len() as int));
        assert(r >= score_at(corp, q, s2 + 0, n));
    }
    assert(r >= sc);
}

} // verus!
