//! Case-insensitive Levenshtein edit distance.
//!
//! `lev` is the textbook recursive definition of the Levenshtein distance on
//! character sequences; `dist` applies it to ASCII-case-folded inputs and is
//! the metric every other module of this crate is specified against.

use vstd::prelude::*;

verus! {

/// ASCII case folding of a single character: upper-case letters map to their
/// lower-case counterpart, everything else is untouched.
pub open spec fn fold_char(c: char) -> char {
    if 'A' <= c && c <= 'Z' {
        (((c as u8) + 32) as char)
    } else {
        c
    }
}

/// ASCII case folding of a whole sequence, character by character.
pub open spec fn fold(s: Seq<char>) -> Seq<char> {
    s.map_values(|c: char| fold_char(c))
}

/// The smaller of two natural numbers.
pub open spec fn min2(a: nat, b: nat) -> nat {
    if a <= b {
        a
    } else {
        b
    }
}

/// The smallest of three natural numbers.
pub open spec fn min3(a: nat, b: nat, c: nat) -> nat {
    min2(a, min2(b, c))
}

/// Levenshtein edit distance between two character sequences: the least
/// number of single-character insertions, deletions and substitutions that
/// turns `a` into `b`.
pub open spec fn lev(a: Seq<char>, b: Seq<char>) -> nat
    decreases a.len() + b.len(),
{
    if a.len() == 0 {
        b.len()
    } else if b.len() == 0 {
        a.len()
    } else if a.last() == b.last() {
        lev(a.drop_last(), b.drop_last())
    } else {
        1 + min3(
            lev(a.drop_last(), b),
            lev(a, b.drop_last()),
            lev(a.drop_last(), b.drop_last()),
        )
    }
}

/// The distance the index is built on: Levenshtein distance between the
/// case-folded inputs.
pub open spec fn dist(a: Seq<char>, b: Seq<char>) -> nat {
    lev(fold(a), fold(b))
}

/// The distance never exceeds the length of the longer input.
pub proof fn lemma_lev_le_max(a: Seq<char>, b: Seq<char>)
    ensures
        lev(a, b) <= a.len() + b.len(),
        a.len() <= b.len() ==> lev(a, b) <= b.len(),
        b.len() <= a.len() ==> lev(a, b) <= a.len(),
    decreases a.len() + b.len(),
{
    if a.len() == 0 || b.len() == 0 {
    } else if a.last() == b.last() {
        lemma_lev_le_max(a.drop_last(), b.drop_last());
    } else {
        lemma_lev_le_max(a.drop_last(), b);
        lemma_lev_le_max(a, b.drop_last());
        lemma_lev_le_max(a.drop_last(), b.drop_last());
    }
}

/// One cell of the standard dynamic-programming recurrence, stated over
/// prefixes of the two inputs.
proof fn lemma_lev_step(a: Seq<char>, b: Seq<char>, i: int, j: int)
    requires
        1 <= i <= a.len(),
        1 <= j <= b.len(),
    ensures
        a[i - 1] == b[j - 1] ==> lev(a.take(i), b.take(j)) == lev(
            a.take(i - 1),
            b.take(j - 1),
        ),
        a[i - 1] != b[j - 1] ==> lev(a.take(i), b.take(j)) == 1 + min3(
            lev(a.take(i - 1), b.take(j)),
            lev(a.take(i), b.take(j - 1)),
            lev(a.take(i - 1), b.take(j - 1)),
        ),
{
    assert(a.take(i).last() == a[i - 1]);
    assert(b.take(j).last() == b[j - 1]);
    assert(a.take(i).drop_last() =~= a.take(i - 1));
    assert(b.take(j).drop_last() =~= b.take(j - 1));
}

/// Executable Levenshtein distance between two character vectors, by the
/// usual two-row dynamic program.
pub fn levenshtein(a: &Vec<char>, b: &Vec<char>) -> (d: usize)
    requires
        a@.len() < usize::MAX,
        b@.len() < usize::MAX,
    ensures
        d == lev(a@, b@),
{
    let n = a.len();
    let m = b.len();
    let mut prev: Vec<usize> = Vec::new();
    for j in 0..m + 1
        invariant
            m == b@.len(),
            prev@.len() == j,
            forall|k: int| 0 <= k < j ==> prev@[k] == lev(a@.take(0), b@.take(k)),
    {
        assert(lev(a@.take(0), b@.take(j as int)) == b@.take(j as int).len());
        prev.push(j);
    }
    for i in 1..n + 1
        invariant
            n == a@.len(),
            m == b@.len(),
            m < usize::MAX,
            prev@.len() == m + 1,
            forall|k: int| 0 <= k <= m ==> prev@[k] == lev(a@.take(i - 1), b@.take(k)),
    {
        let mut cur: Vec<usize> = Vec::new();
        assert(lev(a@.take(i as int), b@.take(0)) == a@.take(i as int).len());
        cur.push(i);
        for j in 1..m + 1
            invariant
                n == a@.len(),
                m == b@.len(),
                1 <= i <= n,
                prev@.len() == m + 1,
                forall|k: int| 0 <= k <= m ==> prev@[k] == lev(a@.take(i - 1), b@.take(k)),
                cur@.len() == j,
                forall|k: int| 0 <= k < j ==> cur@[k] == lev(a@.take(i as int), b@.take(k)),
        {
            proof {
                lemma_lev_step(a@, b@, i as int, j as int);
                lemma_lev_le_max(a@.take(i - 1), b@.take(j - 1));
            }
            if a[i - 1] == b[j - 1] {
                let c = prev[j - 1];
                cur.push(c);
            } else {
                let mut best = prev[j - 1];
                if prev[j] < best {
                    best = prev[j];
                }
                if cur[j - 1] < best {
                    best = cur[j - 1];
                }
                assert(best == min3(
                    lev(a@.take(i - 1), b@.take(j as int)),
                    lev(a@.take(i as int), b@.take(j - 1)),
                    lev(a@.take(i - 1), b@.take(j - 1)),
                ));
                cur.push(1 + best);
            }
        }
        prev = cur;
    }
    proof {
        assert(a@.take(n as int) =~= a@);
        assert(b@.take(m as int) =~= b@);
    }
    prev[m]
}

/// Executable distance between two strings: Levenshtein distance on the
/// case-folded character sequences.
pub fn distance(a: &str, b: &str) -> (d: usize)
    requires
        a@.len() < usize::MAX,
        b@.len() < usize::MAX,
    ensures
        d == dist(a@, b@),
{
    let fa = fold_str(a);
    let fb = fold_str(b);
    levenshtein(&fa, &fb)
}

/// Executable ASCII case folding of one character.
fn char_fold(c: char) -> (r: char)
    ensures
        r == fold_char(c),
{
    if 'A' <= c && c <= 'Z' {
        ((c as u8) + 32) as char
    } else {
        c
    }
}

/// The characters of a string, case-folded, as a vector.
pub fn fold_str(s: &str) -> (v: Vec<char>)
    ensures
        v@ == fold(s@),
{
    let n = s.unicode_len();
    let mut v: Vec<char> = Vec::new();
    for i in 0..n
        invariant
            n == s@.len(),
            v@.len() == i,
            forall|j: int| 0 <= j < i ==> v@[j] == fold_char(s@[j]),
    {
        v.push(char_fold(s.get_char(i)));
    }
    assert(v@ =~= fold(s@));
    v
}

} // verus!
