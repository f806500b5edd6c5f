//! The distance metric: a modified Levenshtein edit distance that also
//! counts an adjacent-pair transposition as a single edit.
//!
//! The metric is defined by the dynamic-programming recurrence
//! [`edit_dist_rec`]; [`edit_distance`] computes it over rolling rows.

use vstd::prelude::*;

verus! {

/// The smaller of two naturals.
pub open spec fn min_nat(a: nat, b: nat) -> nat {
    if a <= b {
        a
    } else {
        b
    }
}

/// The edit-distance table entry for the prefixes `a[..i]` and `b[..j]`:
/// the cost of turning the first `i` characters of `a` into the first `j`
/// characters of `b` by single-character insertions, deletions,
/// substitutions, and adjacent-pair transpositions (each of cost 1).
///
/// The transposition clause is the restricted, adjacent-swap variant: it
/// relaxes the entry with `table[i-2][j-2] + 1` exactly when the last two
/// characters of the prefixes appear swapped, and nothing more.
pub open spec fn edit_dist_rec(a: Seq<char>, b: Seq<char>, i: nat, j: nat) -> nat
    recommends
        i <= a.len(),
        j <= b.len(),
    decreases i + j,
{
    if i == 0 {
        j
    } else if j == 0 {
        i
    } else {
        let sub_cost: nat = if a[i - 1] == b[j - 1] {
            0
        } else {
            1
        };
        let best = min_nat(
            edit_dist_rec(a, b, (i - 1) as nat, (j - 1) as nat) + sub_cost,
            min_nat(
                edit_dist_rec(a, b, (i - 1) as nat, j) + 1,
                edit_dist_rec(a, b, i, (j - 1) as nat) + 1,
            ),
        );
        if i >= 2 && j >= 2 && a[i - 1] == b[j - 2] && a[i - 2] == b[j - 1] {
            min_nat(best, edit_dist_rec(a, b, (i - 2) as nat, (j - 2) as nat) + 1)
        } else {
            best
        }
    }
}

/// The transposition-aware edit distance between two character sequences.
pub open spec fn edit_dist(a: Seq<char>, b: Seq<char>) -> nat {
    edit_dist_rec(a, b, a.len(), b.len())
}

/// Every table entry is at most the sum of its prefix lengths: `i` deletions
/// followed by `j` insertions always suffice.
pub proof fn lemma_edit_dist_rec_le(a: Seq<char>, b: Seq<char>, i: nat, j: nat)
    ensures
        edit_dist_rec(a, b, i, j) <= i + j,
    decreases i + j,
{
    if i == 0 || j == 0 {
    } else {
        lemma_edit_dist_rec_le(a, b, (i - 1) as nat, (j - 1) as nat);
        lemma_edit_dist_rec_le(a, b, (i - 1) as nat, j);
        lemma_edit_dist_rec_le(a, b, i, (j - 1) as nat);
    }
}

/// The distance from a sequence to itself is zero, prefix by prefix.
proof fn lemma_edit_dist_rec_self(s: Seq<char>, i: nat)
    ensures
        edit_dist_rec(s, s, i, i) == 0,
    decreases i,
{
    if i != 0 {
        lemma_edit_dist_rec_self(s, (i - 1) as nat);
    }
}

/// A sequence is at distance zero from itself.
pub proof fn lemma_edit_dist_self(s: Seq<char>)
    ensures
        edit_dist(s, s) == 0,
{
    lemma_edit_dist_rec_self(s, s.len());
}

/// Against the empty sequence the distance is the other sequence's length:
/// only insertions (or only deletions) remain.
pub proof fn lemma_edit_dist_empty(s: Seq<char>)
    ensures
        edit_dist(Seq::<char>::empty(), s) == s.len(),
        edit_dist(s, Seq::<char>::empty()) == s.len(),
{
}

/// The table is symmetric: swapping the two sequences transposes it.
proof fn lemma_edit_dist_rec_sym(a: Seq<char>, b: Seq<char>, i: nat, j: nat)
    ensures
        edit_dist_rec(a, b, i, j) == edit_dist_rec(b, a, j, i),
    decreases i + j,
{
    if i == 0 || j == 0 {
    } else {
        lemma_edit_dist_rec_sym(a, b, (i - 1) as nat, (j - 1) as nat);
        lemma_edit_dist_rec_sym(a, b, (i - 1) as nat, j);
        lemma_edit_dist_rec_sym(a, b, i, (j - 1) as nat);
        if i >= 2 && j >= 2 {
            lemma_edit_dist_rec_sym(a, b, (i - 2) as nat, (j - 2) as nat);
        }
    }
}

/// The metric is symmetric: the distance from `a` to `b` equals the
/// distance from `b` to `a`.
pub proof fn lemma_edit_dist_symmetric(a: Seq<char>, b: Seq<char>)
    ensures
        edit_dist(a, b) == edit_dist(b, a),
{
    lemma_edit_dist_rec_sym(a, b, a.len(), b.len());
}

/// The smaller of two machine words, mirroring [`min_nat`].
fn min_usize(a: usize, b: usize) -> (r: usize)
    ensures
        r as nat == min_nat(a as nat, b as nat),
{
    if a <= b {
        a
    } else {
        b
    }
}

/// The characters of a string, in order, as a vector.
fn chars_of(s: &str) -> (v: Vec<char>)
    ensures
        v@ == s@,
{
    let n: usize = s.unicode_len();
    let mut v: Vec<char> = Vec::new();
    let mut i: usize = 0;
    while i < n
        invariant
            i <= n,
            n == s@.len(),
            v@.len() == i,
            forall|k: int| 0 <= k < i ==> v@[k] == s@[k],
        decreases n - i,
    {
        v.push(s.get_char(i));
        i += 1;
    }
    proof {
        assert(v@ =~= s@);
    }
    v
}

/// Return the edit distance between `search_term` and `known_term`:
/// the least number of single-character insertions, deletions,
/// substitutions, and adjacent-pair transpositions turning one into the
/// other, as [`edit_dist`] defines it.
///
/// Total over its domain: any two strings whose combined length fits the
/// machine word, including empty ones.
pub fn edit_distance(search_term: &str, known_term: &str) -> (d: usize)
    requires
        search_term@.len() + known_term@.len() < usize::MAX,
    ensures
        d == edit_dist(search_term@, known_term@),
{
    let a = chars_of(search_term);
    let b = chars_of(known_term);
    let n: usize = a.len();
    let m: usize = b.len();

    // Row 0 of the table: turning the empty prefix into b[..k] takes k
    // insertions.
    let mut prev: Vec<usize> = Vec::new();
    let mut j: usize = 0;
    while j <= m
        invariant
            j <= m + 1,
            m == b@.len(),
            n + m < usize::MAX,
            prev@.len() == j,
            forall|k: int| 0 <= k < j ==> prev@[k] == k,
        decreases m + 1 - j,
    {
        prev.push(j);
        j += 1;
    }
    assert forall|k: int| 0 <= k <= m implies prev@[k] == edit_dist_rec(
        a@,
        b@,
        0,
        k as nat,
    ) by {
        assert(edit_dist_rec(a@, b@, 0, k as nat) == k);
    }

    // Fill the table row by row, keeping the last two rows: the
    // transposition clause looks two rows back.
    let mut prev_prev: Vec<usize> = Vec::new();
    let mut i: usize = 1;
    while i <= n
        invariant
            1 <= i <= n + 1,
            a@ == search_term@,
            b@ == known_term@,
            n == a@.len(),
            m == b@.len(),
            n + m < usize::MAX,
            prev@.len() == m + 1,
            forall|k: int| 0 <= k <= m ==> prev@[k] == edit_dist_rec(
                a@,
                b@,
                (i - 1) as nat,
                k as nat,
            ),
            i >= 2 ==> prev_prev@.len() == m + 1,
            i >= 2 ==> forall|k: int| 0 <= k <= m ==> prev_prev@[k] == edit_dist_rec(
                a@,
                b@,
                (i - 2) as nat,
                k as nat,
            ),
        decreases n + 1 - i,
    {
        let mut cur: Vec<usize> = Vec::new();
        cur.push(i);
        assert(edit_dist_rec(a@, b@, i as nat, 0) == i);
        let ai1: char = a[i - 1];
        let mut j: usize = 1;
        while j <= m
            invariant
                1 <= i <= n,
                1 <= j <= m + 1,
                a@ == search_term@,
                b@ == known_term@,
                n == a@.len(),
                m == b@.len(),
                n + m < usize::MAX,
                ai1 == a@[i - 1],
                prev@.len() == m + 1,
                forall|k: int| 0 <= k <= m ==> prev@[k] == edit_dist_rec(
                    a@,
                    b@,
                    (i - 1) as nat,
                    k as nat,
                ),
                i >= 2 ==> prev_prev@.len() == m + 1,
                i >= 2 ==> forall|k: int| 0 <= k <= m ==> prev_prev@[k] == edit_dist_rec(
                    a@,
                    b@,
                    (i - 2) as nat,
                    k as nat,
                ),
                cur@.len() == j,
                forall|k: int| 0 <= k < j ==> cur@[k] == edit_dist_rec(
                    a@,
                    b@,
                    i as nat,
                    k as nat,
                ),
            decreases m + 1 - j,
        {
            proof {
                lemma_edit_dist_rec_le(a@, b@, (i - 1) as nat, (j - 1) as nat);
                lemma_edit_dist_rec_le(a@, b@, (i - 1) as nat, j as nat);
                lemma_edit_dist_rec_le(a@, b@, i as nat, (j - 1) as nat);
            }
            let sub_cost: usize = if ai1 == b[j - 1] {
                0
            } else {
                1
            };
            let mut val: usize = min_usize(
                prev[j - 1] + sub_cost,
                min_usize(prev[j] + 1, cur[j - 1] + 1),
            );
            if i > 1 && j > 1 && ai1 == b[j - 2] && a[i - 2] == b[j - 1] {
                proof {
                    lemma_edit_dist_rec_le(a@, b@, (i - 2) as nat, (j - 2) as nat);
                }
                val = min_usize(val, prev_prev[j - 2] + 1);
            }
            assert(val == edit_dist_rec(a@, b@, i as nat, j as nat));
            cur.push(val);
            j += 1;
        }
        prev_prev = prev;
        prev = cur;
        i += 1;
    }
    prev[m]
}

} // verus!
