//! The shortlist: a fixed-capacity, distance-sorted buffer of the best
//! candidates seen so far, maintained online by shift-insertion.
//!
//! [`TopNSelector`] keeps two parallel vectors of words and distances,
//! sorted ascending by distance; [`offer`](TopNSelector::offer) seats a new
//! candidate by shifting the tail one slot and dropping the entry that
//! falls off the end, so the length never changes.

use vstd::prelude::*;

verus! {

/// A sequence of distances is sorted in non-decreasing order.
pub open spec fn sorted(s: Seq<usize>) -> bool {
    forall|x: int, y: int| 0 <= x <= y < s.len() ==> s[x] <= s[y]
}

/// `s` with `x` seated at slot `i`, every later entry shifted one slot
/// toward the tail, and the last entry dropped; the length is kept.
pub open spec fn shifted_in<T>(s: Seq<T>, i: int, x: T) -> Seq<T>
    recommends
        0 <= i < s.len(),
{
    s.subrange(0, i) + seq![x] + s.subrange(i, s.len() - 1)
}

/// The slot where a new distance is seated: the first index whose entry is
/// strictly greater than `d` (the sequence's length when there is none).
/// The strict comparison is what makes the shortlist stable: an arriving
/// candidate never bumps an already-seated candidate of equal distance.
pub open spec fn insert_pos(dists: Seq<usize>, d: usize) -> int
    decreases dists.len(),
{
    if dists.len() == 0 {
        0
    } else if d < dists[0] {
        0
    } else {
        1 + insert_pos(dists.drop_first(), d)
    }
}

/// The seat chosen by [`insert_pos`] lies within the sequence, everything
/// before it is at most `d`, and the entry at it (if any) exceeds `d`.
pub proof fn lemma_insert_pos_props(dists: Seq<usize>, d: usize)
    ensures
        0 <= insert_pos(dists, d) <= dists.len(),
        forall|k: int| 0 <= k < insert_pos(dists, d) ==> dists[k] <= d,
        insert_pos(dists, d) < dists.len() ==> d < dists[insert_pos(dists, d)],
    decreases dists.len(),
{
    if dists.len() == 0 {
    } else if d < dists[0] {
    } else {
        lemma_insert_pos_props(dists.drop_first(), d);
        assert forall|k: int| 0 <= k < insert_pos(dists, d) implies dists[k] <= d by {
            if k >= 1 {
                assert(dists[k] == dists.drop_first()[k - 1]);
            }
        }
    }
}

/// An index with the properties of [`lemma_insert_pos_props`] is the seat
/// chosen by [`insert_pos`]: the characterization pins it down.
pub proof fn lemma_insert_pos_unique(dists: Seq<usize>, d: usize, i: int)
    requires
        0 <= i <= dists.len(),
        forall|k: int| 0 <= k < i ==> dists[k] <= d,
        i < dists.len() ==> d < dists[i],
    ensures
        insert_pos(dists, d) == i,
    decreases dists.len(),
{
    if dists.len() == 0 {
    } else if i == 0 {
    } else {
        assert(dists[0] <= d);
        lemma_insert_pos_unique(dists.drop_first(), d, i - 1);
    }
}

/// The distances after offering `d`: unchanged when `d` does not beat the
/// current worst, else `d` seated at its slot with the worst dropped.
pub open spec fn offered_dists(dists: Seq<usize>, d: usize) -> Seq<usize> {
    if dists.len() == 0 || d >= dists.last() {
        dists
    } else {
        shifted_in(dists, insert_pos(dists, d), d)
    }
}

/// The words after offering `w` at distance `d`, moved in lockstep with
/// [`offered_dists`].
pub open spec fn offered_words(
    words: Seq<Seq<char>>,
    dists: Seq<usize>,
    w: Seq<char>,
    d: usize,
) -> Seq<Seq<char>> {
    if dists.len() == 0 || d >= dists.last() {
        words
    } else {
        shifted_in(words, insert_pos(dists, d), w)
    }
}

/// The views of a sequence of words.
pub open spec fn views_of(words: Seq<String>) -> Seq<Seq<char>> {
    words.map_values(|w: String| w@)
}

/// Offering never changes the shortlist's length.
pub proof fn lemma_offered_len(words: Seq<Seq<char>>, dists: Seq<usize>, w: Seq<char>, d: usize)
    requires
        words.len() == dists.len(),
    ensures
        offered_dists(dists, d).len() == dists.len(),
        offered_words(words, dists, w, d).len() == words.len(),
{
    if dists.len() == 0 || d >= dists.last() {
    } else {
        lemma_insert_pos_props(dists, d);
        if insert_pos(dists, d) == dists.len() {
            assert(dists[dists.len() - 1] <= d);
        }
    }
}

/// Offering preserves the shortlist's standing invariant: the distances
/// stay sorted in non-decreasing order.
pub proof fn lemma_offered_sorted(dists: Seq<usize>, d: usize)
    requires
        sorted(dists),
    ensures
        sorted(offered_dists(dists, d)),
{
    if dists.len() == 0 || d >= dists.last() {
    } else {
        lemma_insert_pos_props(dists, d);
        let p = insert_pos(dists, d);
        if p == dists.len() {
            assert(dists[dists.len() - 1] <= d);
        }
        let nd = shifted_in(dists, p, d);
        assert forall|x: int, y: int| 0 <= x <= y < nd.len() implies nd[x] <= nd[y] by {
            if y < p {
                assert(nd[x] == dists[x] && nd[y] == dists[y]);
            } else if x < p && y == p {
                assert(nd[x] == dists[x] && nd[y] == d);
            } else if x < p && y > p {
                assert(nd[x] == dists[x] && nd[y] == dists[y - 1]);
            } else if x == p && y == p {
            } else if x == p && y > p {
                assert(nd[y] == dists[y - 1]);
                assert(d < dists[p] <= dists[y - 1]);
            } else {
                assert(nd[x] == dists[x - 1] && nd[y] == dists[y - 1]);
            }
        }
    }
}

/// Offering a distance no better than the current worst — in particular one
/// equal to it — leaves the shortlist exactly as it was.
pub proof fn lemma_offer_at_worst_no_change(
    words: Seq<Seq<char>>,
    dists: Seq<usize>,
    w: Seq<char>,
    d: usize,
)
    requires
        dists.len() > 0,
        d >= dists.last(),
    ensures
        offered_dists(dists, d) == dists,
        offered_words(words, dists, w, d) == words,
{
}

/// Insert `element` at `index`, shifting the tail one slot and dropping the
/// last entry, so the length is preserved; out-of-range indices leave the
/// vector untouched.
pub fn insert_and_shift<T: Copy>(list: &mut Vec<T>, index: usize, element: T)
    ensures
        final(list)@.len() == old(list)@.len(),
        index >= old(list)@.len() ==> final(list)@ == old(list)@,
        index < old(list)@.len() ==> final(list)@ == shifted_in(
            old(list)@,
            index as int,
            element,
        ),
{
    if index >= list.len() {
        return ;
    }
    list.insert(index, element);
    let n: usize = list.len();
    list.truncate(n - 1);
    proof {
        assert(list@ =~= shifted_in(old(list)@, index as int, element));
    }
}

/// The online top-N structure: the `N` closest candidates seen so far,
/// sorted ascending by distance, words and distances kept in parallel.
pub struct TopNSelector {
    words: Vec<String>,
    dists: Vec<usize>,
}

impl TopNSelector {
    /// The tracked words, by view.
    pub closed spec fn words_view(&self) -> Seq<Seq<char>> {
        views_of(self.words@)
    }

    /// The tracked distances.
    pub closed spec fn dists_view(&self) -> Seq<usize> {
        self.dists@
    }

    /// Well-formed: as many words as distances, distances sorted ascending.
    pub open spec fn wf(&self) -> bool {
        &&& self.words_view().len() == self.dists_view().len()
        &&& sorted(self.dists_view())
    }

    /// The fixed number of slots.
    pub open spec fn capacity(&self) -> nat {
        self.dists_view().len()
    }

    /// A selector with `n` slots, every word empty and every distance the
    /// sentinel: a slot still at the sentinel has never been filled by a
    /// real candidate.
    pub fn new(n: usize, sentinel: usize) -> (s: Self)
        ensures
            s.wf(),
            s.capacity() == n,
            s.dists_view() == Seq::new(n as nat, |k: int| sentinel),
            s.words_view() == Seq::new(n as nat, |k: int| Seq::<char>::empty()),
    {
        let mut words: Vec<String> = Vec::new();
        let mut dists: Vec<usize> = Vec::new();
        let mut i: usize = 0;
        while i < n
            invariant
                i <= n,
                words@.len() == i,
                dists@.len() == i,
                forall|k: int| 0 <= k < i ==> (#[trigger] words@[k])@ == Seq::<char>::empty(),
                forall|k: int| 0 <= k < i ==> dists@[k] == sentinel,
            decreases n - i,
        {
            words.push(String::new());
            dists.push(sentinel);
            i += 1;
        }
        let s = TopNSelector { words, dists };
        proof {
            assert(s.dists_view() =~= Seq::new(n as nat, |k: int| sentinel));
            assert(s.words_view() =~= Seq::new(n as nat, |k: int| Seq::<char>::empty()));
        }
        s
    }

    /// Offer one candidate. If its distance beats the current worst, it is
    /// seated at the first slot whose distance exceeds it — so, among equal
    /// distances, the earlier arrival keeps the earlier slot — the tail
    /// shifts one slot, and the worst entry is dropped; otherwise the
    /// shortlist is unchanged. The capacity never changes.
    pub fn offer(&mut self, word: String, dist: usize)
        requires
            old(self).wf(),
        ensures
            final(self).wf(),
            final(self).capacity() == old(self).capacity(),
            final(self).dists_view() == offered_dists(old(self).dists_view(), dist),
            final(self).words_view() == offered_words(
                old(self).words_view(),
                old(self).dists_view(),
                word@,
                dist,
            ),
    {
        let n: usize = self.dists.len();
        if n == 0 {
            return ;
        }
        if dist < self.dists[n - 1] {
            let mut i: usize = 0;
            while i < n && self.dists[i] <= dist
                invariant
                    i <= n,
                    n == self.dists@.len(),
                    forall|k: int| 0 <= k < i ==> self.dists@[k] <= dist,
                decreases n - i,
            {
                i += 1;
            }
            assert(i < n);
            proof {
                lemma_insert_pos_unique(self.dists@, dist, i as int);
            }
            insert_and_shift(&mut self.dists, i, dist);
            self.words.insert(i, word);
            let wl: usize = self.words.len();
            self.words.truncate(wl - 1);
            proof {
                let ds0 = old(self).dists_view();
                let ws0 = old(self).words@;
                let p = insert_pos(ds0, dist);
                assert(self.words@ =~= shifted_in(ws0, p, word));
                assert(self.words_view() =~= shifted_in(views_of(ws0), p, word@));
                lemma_offered_sorted(ds0, dist);
            }
        }
    }

    /// Hand back the shortlist: the words and their distances, in
    /// ascending-distance order. A distance still at or beyond the sentinel
    /// marks a slot that no real candidate ever filled.
    pub fn finalize(self) -> (r: (Vec<String>, Vec<usize>))
        ensures
            views_of(r.0@) == self.words_view(),
            r.1@ == self.dists_view(),
    {
        (self.words, self.dists)
    }
}

} // verus!
