//! Page corpus index.
//!
//! When a book is opened, the raw per-page text is normalized once and
//! indexed: an ordered sequence of pages, each an ordered sequence of
//! normalized fragments.  The index also keeps the flattened fragment
//! sequence in reading order, the page and intra-page offset of every
//! flattened fragment, and the flat start index of every page, so that
//! matching can slide over a contiguous fragment range and report
//! positions.  The corpus is read-only after it is built.

use vstd::prelude::*;

use crate::normalize::lemma_normalize_idempotent;
use crate::normalize::norm;
use crate::normalize::normalize;

verus! {

/// A location in the book: the page and the fragment index within that
/// page's indexed text.
#[derive(PartialEq, Eq, Structural, Clone, Copy, Debug)]
pub struct Position {
    /// Identifier of the page, strictly increasing in reading order.
    pub page_id: u64,
    /// Fragment index within the page.
    pub offset: usize,
}

/// One indexed page: its identifier and its normalized fragments in
/// reading order.
pub struct Page {
    pub id: u64,
    pub frags: Vec<Vec<char>>,
}

/// The fragment sequences of a vector of fragment vectors.
pub open spec fn frags_view(v: Vec<Vec<char>>) -> Seq<Seq<char>> {
    Seq::new(v@.len(), |i: int| v@[i]@)
}

/// The flattened fragment sequence of a page sequence, in reading
/// order.  Empty pages contribute nothing but are still counted by the
/// per-page start indices.
pub open spec fn flat_of(ps: Seq<Page>) -> Seq<Seq<char>>
    decreases ps.len(),
{
    if ps.len() == 0 {
        Seq::empty()
    } else {
        flat_of(ps.drop_last()) + frags_view(ps.last().frags)
    }
}

/// The position of each flattened fragment, aligned with `flat_of`.
pub open spec fn locs_of(ps: Seq<Page>) -> Seq<Position>
    decreases ps.len(),
{
    if ps.len() == 0 {
        Seq::empty()
    } else {
        locs_of(ps.drop_last()) + Seq::new(
            ps.last().frags@.len(),
            |j: int| Position { page_id: ps.last().id, offset: j as usize },
        )
    }
}

/// The flattened sequence and the location sequence describe the same
/// fragments.
pub proof fn lemma_flat_locs_len(ps: Seq<Page>)
    ensures
        flat_of(ps).len() == locs_of(ps).len(),
    decreases ps.len(),
{
    if ps.len() > 0 {
        lemma_flat_locs_len(ps.drop_last());
    }
}


/// Whether some page carries this identifier.
pub open spec fn has_page(ps: Seq<Page>, id: u64) -> bool {
    exists|i: int| 0 <= i < ps.len() && (#[trigger] ps[i]).id == id
}

/// The index of the page carrying this identifier.
pub open spec fn page_idx(ps: Seq<Page>, id: u64) -> int {
    choose|i: int| 0 <= i < ps.len() && (#[trigger] ps[i]).id == id
}

/// The smaller of two mathematical integers.
pub open spec fn spec_min(a: int, b: int) -> int {
    if a <= b {
        a
    } else {
        b
    }
}

/// The flat index a position stands for: the flat start of its page
/// plus its offset, clipped to the page length.  A position on an
/// unknown page anchors at the end of the corpus.
pub open spec fn anchor_of(ps: Seq<Page>, pos: Position) -> int {
    if has_page(ps, pos.page_id) {
        let i = page_idx(ps, pos.page_id);
        flat_of(ps.take(i)).len() + spec_min(pos.offset as int, ps[i].frags@.len() as int)
    } else {
        flat_of(ps).len() as int
    }
}

/// Lower end of the search window of the given radius around a
/// position.
pub open spec fn window_lo_of(ps: Seq<Page>, pos: Position, radius: int) -> int {
    let a = anchor_of(ps, pos);
    if a >= radius {
        a - radius
    } else {
        0
    }
}

/// Upper end of the search window of the given radius around a
/// position.
pub open spec fn window_hi_of(ps: Seq<Page>, pos: Position, radius: int) -> int {
    let a = anchor_of(ps, pos);
    let n = flat_of(ps).len() as int;
    if a + radius <= n {
        a + radius
    } else {
        n
    }
}

/// One more page adds its fragment count to the flat prefix length.
pub proof fn lemma_flat_take_succ(ps: Seq<Page>, i: int)
    requires
        0 <= i < ps.len(),
    ensures
        flat_of(ps.take(i + 1)).len() == flat_of(ps.take(i)).len() + ps[i].frags@.len(),
{
    assert(ps.take(i + 1).drop_last() =~= ps.take(i));
    assert(ps.take(i + 1).last() == ps[i]);
}

/// A flat prefix is never longer than the whole flat sequence.
pub proof fn lemma_flat_take_le(ps: Seq<Page>, k: int)
    requires
        0 <= k <= ps.len(),
    ensures
        flat_of(ps.take(k)).len() <= flat_of(ps).len(),
    decreases ps.len() - k,
{
    if k == ps.len() {
        assert(ps.take(k) =~= ps);
    } else {
        lemma_flat_take_succ(ps, k);
        lemma_flat_take_le(ps, k + 1);
    }
}

/// The indexed corpus of the open book.
pub struct Corpus {
    /// The pages in reading order.
    pub pages: Vec<Page>,
    /// All normalized fragments in reading order.
    pub flat: Vec<Vec<char>>,
    /// The position of each entry of `flat`.
    pub locs: Vec<Position>,
    /// For each page, the flat index of its first fragment.
    pub starts: Vec<usize>,
}

impl Corpus {
    /// Internal consistency: page identifiers strictly increase in
    /// reading order, every fragment is in normal form, and the
    /// flattened sequence, the location table and the page start table
    /// all agree with the pages.
    pub open spec fn wf(self) -> bool {
        &&& forall|i: int, j: int|
            0 <= i < j < self.pages@.len() ==> (#[trigger] self.pages@[i]).id < (
            #[trigger] self.pages@[j]).id
        &&& forall|p: int, k: int|
            0 <= p < self.pages@.len() && 0 <= k < self.pages@[p].frags@.len() ==> norm(
                #[trigger] self.pages@[p].frags@[k]@,
            ) == self.pages@[p].frags@[k]@
        &&& self.flat@.len() == flat_of(self.pages@).len()
        &&& forall|f: int|
            0 <= f < self.flat@.len() ==> (#[trigger] self.flat@[f])@ == flat_of(self.pages@)[f]
        &&& self.locs@.len() == flat_of(self.pages@).len()
        &&& forall|f: int|
            0 <= f < self.locs@.len() ==> #[trigger] self.locs@[f] == locs_of(self.pages@)[f]
        &&& self.starts@.len() == self.pages@.len()
        &&& forall|k: int|
            0 <= k < self.pages@.len() ==> #[trigger] self.starts@[k] == flat_of(
                self.pages@.take(k),
            ).len()
    }

    /// Number of fragments in the whole corpus.
    pub fn len(&self) -> (n: usize)
        requires
            self.wf(),
        ensures
            n == flat_of(self.pages@).len(),
    {
        self.flat.len()
    }

    /// Builds the corpus for a newly opened book from the raw per-page
    /// text, normalizing every fragment once.  Pages must be given in
    /// reading order with strictly increasing identifiers; empty pages
    /// are retained as zero-length entries.
    pub fn build(input: &Vec<(u64, Vec<String>)>) -> (c: Corpus)
        requires
            forall|i: int, j: int|
                0 <= i < j < input@.len() ==> (#[trigger] input@[i]).0 < (#[trigger] input@[j]).0,
        ensures
            c.wf(),
            c.pages@.len() == input@.len(),
            forall|i: int|
                0 <= i < input@.len() ==> (#[trigger] c.pages@[i]).id == input@[i].0
                    && c.pages@[i].frags@.len() == input@[i].1@.len(),
            forall|i: int, k: int|
                0 <= i < input@.len() && 0 <= k < input@[i].1@.len() ==> (
                #[trigger] c.pages@[i].frags@[k])@ == norm(input@[i].1@[k]@),
    {
        let mut pages: Vec<Page> = Vec::new();
        let mut flat: Vec<Vec<char>> = Vec::new();
        let mut locs: Vec<Position> = Vec::new();
        let mut starts: Vec<usize> = Vec::new();
        let mut p: usize = 0;
        while p < input.len()
            invariant
                0 <= p <= input@.len(),
                forall|i: int, j: int|
                    0 <= i < j < input@.len() ==> (#[trigger] input@[i]).0 < (
                    #[trigger] input@[j]).0,
                pages@.len() == p,
                forall|i: int|
                    0 <= i < p ==> (#[trigger] pages@[i]).id == input@[i].0
                        && pages@[i].frags@.len() == input@[i].1@.len(),
                forall|i: int, k: int|
                    0 <= i < p && 0 <= k < input@[i].1@.len() ==> (
                    #[trigger] pages@[i].frags@[k])@ == norm(input@[i].1@[k]@),
                flat@.len() == flat_of(pages@).len(),
                forall|f: int|
                    0 <= f < flat@.len() ==> (#[trigger] flat@[f])@ == flat_of(pages@)[f],
                locs@.len() == flat_of(pages@).len(),
                forall|f: int| 0 <= f < locs@.len() ==> #[trigger] locs@[f] == locs_of(pages@)[f],
                starts@.len() == p,
                forall|k: int|
                    0 <= k < p ==> #[trigger] starts@[k] == flat_of(pages@.take(k)).len(),
            decreases input@.len() - p,
        {
            proof {
                lemma_flat_locs_len(pages@);
                assert(pages@.take(p as int) =~= pages@);
            }
            starts.push(flat.len());
            let ghost base = flat@.len() as int;
            let ghost old_pages = pages@;
            let ghost old_flat = flat@;
            let ghost old_locs = locs@;
            let ghost old_starts = starts@;
            let id = input[p].0;
            let mut frags: Vec<Vec<char>> = Vec::new();
            let mut j: usize = 0;
            while j < input[p].1.len()
                invariant
                    0 <= p < input@.len(),
                    0 <= j <= input@[p as int].1@.len(),
                    frags@.len() == j,
                    forall|t: int|
                        0 <= t < j ==> (#[trigger] frags@[t])@ == norm(input@[p as int].1@[t]@),
                    flat@.len() == base + j,
                    base == old_flat.len(),
                    forall|t: int| 0 <= t < base ==> #[trigger] flat@[t] == old_flat[t],
                    forall|t: int| 0 <= t < j ==> (#[trigger] flat@[base + t])@ == frags@[t]@,
                    locs@.len() == base + j,
                    forall|t: int| 0 <= t < base ==> #[trigger] locs@[t] == old_locs[t],
                    forall|t: int|
                        0 <= t < j ==> #[trigger] locs@[base + t] == (Position {
                            page_id: id,
                            offset: t as usize,
                        }),
                decreases input@[p as int].1@.len() - j,
            {
                let nf = normalize(input[p].1[j].as_str());
                let nf2 = clone_chars(&nf);
                frags.push(nf);
                flat.push(nf2);
                locs.push(Position { page_id: id, offset: j });
                j = j + 1;
            }
            let ghost fseq = frags@;
            pages.push(Page { id, frags });
            proof {
                let np = pages@;
                let pg = np[p as int];
                assert(np.drop_last() =~= old_pages);
                assert(np.last() == pg);
                assert(flat_of(np) == flat_of(old_pages) + frags_view(pg.frags));
                assert(locs_of(np) == locs_of(old_pages) + Seq::new(
                    pg.frags@.len(),
                    |t: int| Position { page_id: pg.id, offset: t as usize },
                ));
                assert(pg.frags@ == fseq);
                assert forall|f: int| 0 <= f < flat@.len() implies (#[trigger] flat@[f])@
                    == flat_of(np)[f] by {
                    if f < base {
                        assert(flat@[f] == old_flat[f]);
                        assert(flat_of(np)[f] == flat_of(old_pages)[f]);
                    } else {
                        let t = f - base;
                        assert(flat@[base + t]@ == fseq[t]@);
                        assert(flat_of(np)[f] == frags_view(pg.frags)[f - base]);
                        assert(frags_view(pg.frags)[f - base] == pg.frags@[f - base]@);
                    }
                }
                assert forall|f: int| 0 <= f < locs@.len() implies #[trigger] locs@[f] == locs_of(
                    np,
                )[f] by {
                    if f < base {
                        assert(locs@[f] == old_locs[f]);
                        assert(locs_of(np)[f] == locs_of(old_pages)[f]);
                    } else {
                        let t = f - base;
                        assert(locs@[base + t] == (Position { page_id: id, offset: t as usize }));
                        assert(locs_of(np)[f] == (Position {
                            page_id: pg.id,
                            offset: (f - base) as usize,
                        }));
                    }
                }
                assert forall|t: int| 0 <= t < p + 1 implies #[trigger] starts@[t] == flat_of(
                    np.take(t),
                ).len() by {
                    if t < p {
                        assert(starts@[t] == old_starts[t]);
                        assert(np.take(t) =~= old_pages.take(t));
                    } else {
                        assert(np.take(t) =~= old_pages);
                        assert(starts@[t] == base);
                    }
                }
            }
            p = p + 1;
        }
        proof {
            let ps = pages@;
            assert forall|i: int, j: int| 0 <= i < j < ps.len() implies (#[trigger] ps[i]).id < (
            #[trigger] ps[j]).id by {
                assert(ps[i].id == input@[i].0);
                assert(ps[j].id == input@[j].0);
            }
            assert forall|q: int, k: int|
                0 <= q < ps.len() && 0 <= k < ps[q].frags@.len() implies norm(
                #[trigger] ps[q].frags@[k]@,
            ) == ps[q].frags@[k]@ by {
                assert(ps[q].frags@[k]@ == norm(input@[q].1@[k]@));
                lemma_normalize_idempotent(input@[q].1@[k]@);
            }
        }
        Corpus { pages, flat, locs, starts }
    }


    /// The flat index a position stands for; used to center a bounded
    /// search.
    pub fn anchor_flat(&self, pos: Position) -> (a: usize)
        requires
            self.wf(),
        ensures
            a == anchor_of(self.pages@, pos),
            a <= flat_of(self.pages@).len(),
    {
        let ghost ps = self.pages@;
        let mut i: usize = 0;
        while i < self.pages.len()
            invariant
                self.wf(),
                ps == self.pages@,
                0 <= i <= ps.len(),
                forall|t: int| 0 <= t < i ==> (#[trigger] ps[t]).id != pos.page_id,
            decreases ps.len() - i,
        {
            if self.pages[i].id == pos.page_id {
                proof {
                    assert(has_page(ps, pos.page_id));
                    let j = page_idx(ps, pos.page_id);
                    if j < i {
                        assert(ps[j].id < ps[i as int].id);
                    }
                    if j > i {
                        assert(ps[i as int].id < ps[j].id);
                    }
                    assert(j == i);
                    lemma_flat_take_succ(ps, i as int);
                    lemma_flat_take_le(ps, i + 1);
                }
                let fl = self.pages[i].frags.len();
                let off = if pos.offset < fl {
                    pos.offset
                } else {
                    fl
                };
                let st = self.starts[i];
                let total = self.flat.len();
                proof {
                    assert(st == flat_of(ps.take(i as int)).len());
                    assert(st + off <= flat_of(ps.take(i + 1)).len());
                    assert(st + off <= total);
                }
                return st + off;
            }
            i = i + 1;
        }
        proof {
            assert(!has_page(ps, pos.page_id));
        }
        self.flat.len()
    }

    /// The bounded search window of the given radius around a
    /// position, clipped to the corpus.
    pub fn window_range(&self, center: Position, radius: usize) -> (w: (usize, usize))
        requires
            self.wf(),
        ensures
            w.0 == window_lo_of(self.pages@, center, radius as int),
            w.1 == window_hi_of(self.pages@, center, radius as int),
            w.0 <= w.1 <= flat_of(self.pages@).len(),
    {
        let a = self.anchor_flat(center);
        let n = self.flat.len();
        let lo = if a >= radius {
            a - radius
        } else {
            0
        };
        let hi = if n - a >= radius {
            a + radius
        } else {
            n
        };
        (lo, hi)
    }

    /// The fragment at a flat index.
    pub fn fragment_at(&self, f: usize) -> (r: &Vec<char>)
        requires
            self.wf(),
            f < flat_of(self.pages@).len(),
        ensures
            r@ == flat_of(self.pages@)[f as int],
    {
        &self.flat[f]
    }

    /// The position of the fragment at a flat index.
    pub fn location_at(&self, f: usize) -> (r: Position)
        requires
            self.wf(),
            f < flat_of(self.pages@).len(),
        ensures
            r == locs_of(self.pages@)[f as int],
    {
        self.locs[f]
    }
}

/// Clones a fragment.
fn clone_chars(v: &Vec<char>) -> (r: Vec<char>)
    ensures
        r@ == v@,
{
    let mut out: Vec<char> = Vec::new();
    let mut i: usize = 0;
    while i < v.len()
        invariant
            0 <= i <= v@.len(),
            out@ == v@.take(i as int),
        decreases v@.len() - i,
    {
        out.push(v[i]);
        proof {
            assert(out@ =~= v@.take(i + 1));
        }
        i = i + 1;
    }
    proof {
        assert(out@ =~= v@);
    }
    out
}

} // verus!
