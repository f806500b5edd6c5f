//! The suggestion driver: walk a stream of dictionary words, score each
//! against the query with [`edit_distance`], and keep the closest `N` in a
//! [`TopNSelector`].

use vstd::prelude::*;

use crate::distance::edit_dist;
use crate::distance::edit_distance;
use crate::distance::lemma_edit_dist_rec_le;
use crate::shortlist::offered_dists;
use crate::shortlist::offered_words;
use crate::shortlist::lemma_offered_len;
use crate::shortlist::views_of;
use crate::shortlist::sorted;
use crate::shortlist::TopNSelector;

verus! {

/// The shortlist left after offering every candidate in `cands`, in order,
/// each at its edit distance from `query`, starting from the shortlist
/// `(words, dists)`.
pub open spec fn select_rec(
    query: Seq<char>,
    cands: Seq<Seq<char>>,
    words: Seq<Seq<char>>,
    dists: Seq<usize>,
) -> (Seq<Seq<char>>, Seq<usize>)
    decreases cands.len(),
{
    if cands.len() == 0 {
        (words, dists)
    } else {
        let d = edit_dist(query, cands[0]) as usize;
        select_rec(
            query,
            cands.drop_first(),
            offered_words(words, dists, cands[0], d),
            offered_dists(dists, d),
        )
    }
}

/// The shortlist never exceeds its capacity: however long the candidate
/// stream, feeding it leaves exactly as many slots as it found.
pub proof fn lemma_select_rec_len(
    query: Seq<char>,
    cands: Seq<Seq<char>>,
    words: Seq<Seq<char>>,
    dists: Seq<usize>,
)
    requires
        words.len() == dists.len(),
    ensures
        select_rec(query, cands, words, dists).0.len() == words.len(),
        select_rec(query, cands, words, dists).1.len() == dists.len(),
    decreases cands.len(),
{
    if cands.len() != 0 {
        let d = edit_dist(query, cands[0]) as usize;
        lemma_offered_len(words, dists, cands[0], d);
        lemma_select_rec_len(
            query,
            cands.drop_first(),
            offered_words(words, dists, cands[0], d),
            offered_dists(dists, d),
        );
    }
}

/// Re-feeding the same stream in the same order from the same start yields
/// the same shortlist: the outcome depends on nothing but the query, the
/// candidates and their order, and the starting state.
pub proof fn lemma_select_rec_deterministic(
    query1: Seq<char>,
    cands1: Seq<Seq<char>>,
    words1: Seq<Seq<char>>,
    dists1: Seq<usize>,
    query2: Seq<char>,
    cands2: Seq<Seq<char>>,
    words2: Seq<Seq<char>>,
    dists2: Seq<usize>,
)
    requires
        query1 == query2,
        cands1 == cands2,
        words1 == words2,
        dists1 == dists2,
    ensures
        select_rec(query1, cands1, words1, dists1) == select_rec(query2, cands2, words2, dists2),
{
}

impl TopNSelector {
    /// Offer every candidate in `candidates`, in order, at its edit
    /// distance from `query`.
    pub fn offer_all(&mut self, query: &str, candidates: &Vec<String>)
        requires
            old(self).wf(),
            forall|k: int|
                0 <= k < candidates@.len() ==> query@.len() + (#[trigger] candidates@[k])@.len()
                    < usize::MAX,
        ensures
            final(self).wf(),
            final(self).capacity() == old(self).capacity(),
            ({
                let r = select_rec(
                    query@,
                    views_of(candidates@),
                    old(self).words_view(),
                    old(self).dists_view(),
                );
                final(self).words_view() == r.0 && final(self).dists_view() == r.1
            }),
    {
        let ghost cviews = views_of(candidates@);
        let ghost total = select_rec(query@, cviews, self.words_view(), self.dists_view());
        proof {
            assert(cviews.skip(0) =~= cviews);
        }
        let mut k: usize = 0;
        while k < candidates.len()
            invariant
                k <= candidates@.len(),
                self.wf(),
                self.capacity() == old(self).capacity(),
                cviews == views_of(candidates@),
                total == select_rec(
                    query@,
                    cviews,
                    old(self).words_view(),
                    old(self).dists_view(),
                ),
                select_rec(query@, cviews.skip(k as int), self.words_view(), self.dists_view())
                    == total,
                forall|x: int|
                    0 <= x < candidates@.len() ==> query@.len() + (#[trigger] candidates@[x])@.len()
                        < usize::MAX,
            decreases candidates@.len() - k,
        {
            let ghost w0 = self.words_view();
            let ghost d0 = self.dists_view();
            let ghost rest = cviews.skip(k as int);
            let word = candidates[k].clone();
            let ghost wv = word@;
            let dist = edit_distance(query, word.as_str());
            proof {
                lemma_edit_dist_rec_le(query@, wv, query@.len(), wv.len());
                assert(rest[0] == cviews[k as int]);
                assert(cviews[k as int] == (candidates@[k as int])@);
                assert(rest.drop_first() =~= cviews.skip(k as int + 1));
            }
            self.offer(word, dist);
            proof {
                let ghost dv = edit_dist(query@, rest[0]) as usize;
                assert(dist == dv);
                assert(self.words_view() == offered_words(w0, d0, rest[0], dv));
                assert(self.dists_view() == offered_dists(d0, dv));
                assert(select_rec(query@, rest, w0, d0) == select_rec(
                    query@,
                    rest.drop_first(),
                    offered_words(w0, d0, rest[0], dv),
                    offered_dists(d0, dv),
                ));
            }
            k += 1;
        }
        proof {
            assert(cviews.skip(candidates@.len() as int) =~= Seq::<Seq<char>>::empty());
        }
    }
}

/// The sentinel distance a fresh shortlist is seeded with: larger than any
/// distance a candidate could reach unless it dwarfs the query tenfold.
pub open spec fn sentinel_for(query: Seq<char>) -> usize {
    (query.len() * 10) as usize
}

/// Rank `candidates` against `query` and return the `count` closest, as
/// parallel vectors of words and distances in ascending-distance order.
/// Slots no candidate beat still hold the sentinel distance and an empty
/// word; callers treat a distance at or beyond the sentinel as "no match."
pub fn best_matches(query: &str, candidates: &Vec<String>, count: usize) -> (r: (
    Vec<String>,
    Vec<usize>,
))
    requires
        query@.len() * 10 <= usize::MAX,
        forall|k: int|
            0 <= k < candidates@.len() ==> query@.len() + (#[trigger] candidates@[k])@.len()
                < usize::MAX,
    ensures
        r.0@.len() == count,
        r.1@.len() == count,
        sorted(r.1@),
        ({
            let fin = select_rec(
                query@,
                views_of(candidates@),
                Seq::new(count as nat, |k: int| Seq::<char>::empty()),
                Seq::new(count as nat, |k: int| sentinel_for(query@)),
            );
            views_of(r.0@) == fin.0 && r.1@ == fin.1
        }),
{
    let sentinel: usize = query.unicode_len() * 10;
    let mut sel = TopNSelector::new(count, sentinel);
    proof {
        assert(Seq::new(count as nat, |k: int| sentinel) =~= Seq::new(
            count as nat,
            |k: int| sentinel_for(query@),
        ));
    }
    sel.offer_all(query, candidates);
    proof {
        lemma_select_rec_len(
            query@,
            views_of(candidates@),
            Seq::new(count as nat, |k: int| Seq::<char>::empty()),
            Seq::new(count as nat, |k: int| sentinel_for(query@)),
        );
    }
    sel.finalize()
}

} // verus!
