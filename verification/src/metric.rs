//! Metric laws of the edit distance.
//!
//! The search tree prunes subtrees using the triangle inequality, so that law
//! is not incidental: it is proved here, by way of edit transcripts.  A
//! transcript is a step-by-step witness that one sequence can be turned into
//! another; `lev` is exactly the least transcript cost, which makes symmetry
//! and the triangle inequality fall out of transcript surgery.

use vstd::prelude::*;

use crate::distance::dist;
use crate::distance::fold;
use crate::distance::lemma_lev_le_max;
use crate::distance::lev;
use crate::distance::min3;

verus! {

/// The distance from a sequence to itself is zero.
pub proof fn lemma_lev_self(a: Seq<char>)
    ensures
        lev(a, a) == 0,
    decreases a.len(),
{
    if a.len() > 0 {
        lemma_lev_self(a.drop_last());
    }
}

/// The edit distance is symmetric.
pub proof fn lemma_lev_sym(a: Seq<char>, b: Seq<char>)
    ensures
        lev(a, b) == lev(b, a),
    decreases a.len() + b.len(),
{
    if a.len() == 0 || b.len() == 0 {
    } else if a.last() == b.last() {
        lemma_lev_sym(a.drop_last(), b.drop_last());
    } else {
        lemma_lev_sym(a.drop_last(), b);
        lemma_lev_sym(a, b.drop_last());
        lemma_lev_sym(a.drop_last(), b.drop_last());
    }
}

/// The distance is zero exactly between equal sequences.
pub proof fn lemma_lev_zero(a: Seq<char>, b: Seq<char>)
    ensures
        lev(a, b) == 0 <==> a == b,
    decreases a.len() + b.len(),
{
    if a.len() == 0 {
        if b.len() == 0 {
            assert(a =~= b);
        } else {
            assert(a != b);
        }
    } else if b.len() == 0 {
        assert(a != b);
    } else if a.last() == b.last() {
        lemma_lev_zero(a.drop_last(), b.drop_last());
        if a.drop_last() == b.drop_last() {
            assert(a =~= a.drop_last().push(a.last()));
            assert(b =~= b.drop_last().push(b.last()));
        } else {
            assert(a != b);
        }
    } else {
        assert(a != b);
        assert(lev(a, b) > 0);
    }
}

/// Dropping the last character of one side changes the distance by at most
/// one, in either direction.
pub proof fn lemma_lev_drop(u: Seq<char>, v: Seq<char>)
    requires
        u.len() > 0,
    ensures
        lev(u.drop_last(), v) <= lev(u, v) + 1,
        lev(u, v) <= lev(u.drop_last(), v) + 1,
    decreases u.len() + v.len(),
{
    let u0 = u.drop_last();
    if v.len() == 0 {
    } else {
        let v0 = v.drop_last();
        // Facts about dropping the last character of the second side of
        // (u0, v), obtained from this lemma on the swapped pair.
        lemma_lev_sym(v0, u0);
        lemma_lev_sym(v, u0);
        lemma_lev_drop(v, u0);
        if u.last() == v.last() {
        } else {
            lemma_lev_drop(u, v0);
        }
    }
}

/// One step of an edit transcript, consumed from the back of both sequences.
pub enum EditStep {
    /// The last characters agree and are kept; costs nothing.
    Keep,
    /// The last character of the source is replaced by that of the target.
    Subst,
    /// The last character of the target is produced from nothing.
    Insert,
    /// The last character of the source is discarded.
    Delete,
}

/// Whether transcript `t` turns `a` into `b`.
pub open spec fn transcript_ok(t: Seq<EditStep>, a: Seq<char>, b: Seq<char>) -> bool
    decreases t.len(),
{
    if t.len() == 0 {
        a.len() == 0 && b.len() == 0
    } else {
        let t0 = t.drop_last();
        match t.last() {
            EditStep::Keep => a.len() > 0 && b.len() > 0 && a.last() == b.last()
                && transcript_ok(t0, a.drop_last(), b.drop_last()),
            EditStep::Subst => a.len() > 0 && b.len() > 0 && transcript_ok(
                t0,
                a.drop_last(),
                b.drop_last(),
            ),
            EditStep::Insert => b.len() > 0 && transcript_ok(t0, a, b.drop_last()),
            EditStep::Delete => a.len() > 0 && transcript_ok(t0, a.drop_last(), b),
        }
    }
}

/// The number of costly steps of a transcript.
pub open spec fn transcript_cost(t: Seq<EditStep>) -> nat
    decreases t.len(),
{
    if t.len() == 0 {
        0
    } else {
        transcript_cost(t.drop_last()) + if t.last() is Keep {
            0nat
        } else {
            1nat
        }
    }
}

/// How appending one step extends a transcript.
proof fn lemma_step_push(t: Seq<EditStep>, op: EditStep)
    ensures
        t.push(op).len() == t.len() + 1,
        t.push(op).last() == op,
        t.push(op).drop_last() == t,
        transcript_cost(t.push(op)) == transcript_cost(t) + if op is Keep {
            0nat
        } else {
            1nat
        },
{
    assert(t.push(op).drop_last() =~= t);
}

/// There is a transcript whose cost is exactly the edit distance.
pub proof fn transcript_of(a: Seq<char>, b: Seq<char>) -> (t: Seq<EditStep>)
    ensures
        transcript_ok(t, a, b),
        transcript_cost(t) == lev(a, b),
    decreases a.len() + b.len(),
{
    if a.len() == 0 && b.len() == 0 {
        let t = Seq::<EditStep>::empty();
        assert(transcript_cost(t) == 0);
        t
    } else if a.len() == 0 {
        let t0 = transcript_of(a, b.drop_last());
        lemma_step_push(t0, EditStep::Insert);
        t0.push(EditStep::Insert)
    } else if b.len() == 0 {
        let t0 = transcript_of(a.drop_last(), b);
        lemma_step_push(t0, EditStep::Delete);
        t0.push(EditStep::Delete)
    } else if a.last() == b.last() {
        let t0 = transcript_of(a.drop_last(), b.drop_last());
        lemma_step_push(t0, EditStep::Keep);
        t0.push(EditStep::Keep)
    } else {
        let x = lev(a.drop_last(), b);
        let y = lev(a, b.drop_last());
        let z = lev(a.drop_last(), b.drop_last());
        if z <= x && z <= y {
            let t0 = transcript_of(a.drop_last(), b.drop_last());
            lemma_step_push(t0, EditStep::Subst);
            t0.push(EditStep::Subst)
        } else if x <= y {
            let t0 = transcript_of(a.drop_last(), b);
            lemma_step_push(t0, EditStep::Delete);
            t0.push(EditStep::Delete)
        } else {
            let t0 = transcript_of(a, b.drop_last());
            lemma_step_push(t0, EditStep::Insert);
            t0.push(EditStep::Insert)
        }
    }
}

/// No transcript beats the edit distance: `lev` is a lower bound on the cost
/// of any way of turning `a` into `b`.
pub proof fn lemma_transcript_bound(t: Seq<EditStep>, a: Seq<char>, b: Seq<char>)
    requires
        transcript_ok(t, a, b),
    ensures
        lev(a, b) <= transcript_cost(t),
    decreases t.len(),
{
    if t.len() == 0 {
    } else {
        let t0 = t.drop_last();
        match t.last() {
            EditStep::Keep => {
                lemma_transcript_bound(t0, a.drop_last(), b.drop_last());
            },
            EditStep::Subst => {
                lemma_transcript_bound(t0, a.drop_last(), b.drop_last());
            },
            EditStep::Insert => {
                lemma_transcript_bound(t0, a, b.drop_last());
                lemma_lev_sym(a, b);
                lemma_lev_sym(a, b.drop_last());
                lemma_lev_drop(b, a);
                lemma_lev_sym(b.drop_last(), a);
            },
            EditStep::Delete => {
                lemma_transcript_bound(t0, a.drop_last(), b);
                lemma_lev_drop(a, b);
            },
        }
    }
}

/// Transcripts compose: a way from `a` to `b` and a way from `b` to `c`
/// yield a way from `a` to `c` that costs no more than the two together.
pub proof fn transcript_compose(
    t1: Seq<EditStep>,
    t2: Seq<EditStep>,
    a: Seq<char>,
    b: Seq<char>,
    c: Seq<char>,
) -> (t3: Seq<EditStep>)
    requires
        transcript_ok(t1, a, b),
        transcript_ok(t2, b, c),
    ensures
        transcript_ok(t3, a, c),
        transcript_cost(t3) <= transcript_cost(t1) + transcript_cost(t2),
    decreases t1.len() + t2.len(),
{
    if t2.len() == 0 {
        assert(b =~= c);
        t1
    } else if t2.last() is Insert {
        let t3 = transcript_compose(t1, t2.drop_last(), a, b, c.drop_last());
        lemma_step_push(t3, EditStep::Insert);
        t3.push(EditStep::Insert)
    } else if t2.last() is Delete {
        // `b` is non-empty, so `t1` is non-empty as well.
        assert(t1.len() > 0);
        let t10 = t1.drop_last();
        let t20 = t2.drop_last();
        match t1.last() {
            EditStep::Insert => {
                transcript_compose(t10, t20, a, b.drop_last(), c)
            },
            EditStep::Keep => {
                let t3 = transcript_compose(t10, t20, a.drop_last(), b.drop_last(), c);
                lemma_step_push(t3, EditStep::Delete);
                t3.push(EditStep::Delete)
            },
            EditStep::Subst => {
                let t3 = transcript_compose(t10, t20, a.drop_last(), b.drop_last(), c);
                lemma_step_push(t3, EditStep::Delete);
                t3.push(EditStep::Delete)
            },
            EditStep::Delete => {
                let t3 = transcript_compose(t10, t2, a.drop_last(), b, c);
                lemma_step_push(t3, EditStep::Delete);
                t3.push(EditStep::Delete)
            },
        }
    } else {
        // `t2` ends in Keep or Subst, so `b` is non-empty and `t1` is too.
        assert(t1.len() > 0);
        let t10 = t1.drop_last();
        let t20 = t2.drop_last();
        let costly = !(t2.last() is Keep);
        match t1.last() {
            EditStep::Insert => {
                let t3 = transcript_compose(t10, t20, a, b.drop_last(), c.drop_last());
                lemma_step_push(t3, EditStep::Insert);
                t3.push(EditStep::Insert)
            },
            EditStep::Keep => {
                let t3 = transcript_compose(t10, t20, a.drop_last(), b.drop_last(), c.drop_last());
                if t2.last() is Keep {
                    lemma_step_push(t3, EditStep::Keep);
                    t3.push(EditStep::Keep)
                } else {
                    lemma_step_push(t3, EditStep::Subst);
                    t3.push(EditStep::Subst)
                }
            },
            EditStep::Subst => {
                let t3 = transcript_compose(t10, t20, a.drop_last(), b.drop_last(), c.drop_last());
                lemma_step_push(t3, EditStep::Subst);
                t3.push(EditStep::Subst)
            },
            EditStep::Delete => {
                let t3 = transcript_compose(t10, t2, a.drop_last(), b, c);
                lemma_step_push(t3, EditStep::Delete);
                t3.push(EditStep::Delete)
            },
        }
    }
}

/// The edit distance obeys the triangle inequality.
pub proof fn lemma_lev_triangle(a: Seq<char>, b: Seq<char>, c: Seq<char>)
    ensures
        lev(a, c) <= lev(a, b) + lev(b, c),
{
    let t1 = transcript_of(a, b);
    let t2 = transcript_of(b, c);
    let t3 = transcript_compose(t1, t2, a, b, c);
    lemma_transcript_bound(t3, a, c);
}

/// The case-insensitive distance is symmetric.
pub proof fn lemma_dist_symmetric(a: Seq<char>, b: Seq<char>)
    ensures
        dist(a, b) == dist(b, a),
{
    lemma_lev_sym(fold(a), fold(b));
}

/// The case-insensitive distance from a string to itself is zero.
pub proof fn lemma_dist_self(a: Seq<char>)
    ensures
        dist(a, a) == 0,
{
    lemma_lev_self(fold(a));
}

/// The distance against the empty string is the other string's length.
pub proof fn lemma_dist_empty(s: Seq<char>)
    ensures
        dist(Seq::<char>::empty(), s) == s.len(),
        dist(s, Seq::<char>::empty()) == s.len(),
{
    assert(fold(Seq::<char>::empty()) =~= Seq::<char>::empty());
    lemma_lev_sym(fold(Seq::<char>::empty()), fold(s));
}

/// The case-insensitive distance is zero exactly between strings that agree
/// after case folding.
pub proof fn lemma_dist_zero(a: Seq<char>, b: Seq<char>)
    ensures
        dist(a, b) == 0 <==> fold(a) == fold(b),
{
    lemma_lev_zero(fold(a), fold(b));
}

/// The case-insensitive distance obeys the triangle inequality.
pub proof fn lemma_dist_triangle(a: Seq<char>, b: Seq<char>, c: Seq<char>)
    ensures
        dist(a, c) <= dist(a, b) + dist(b, c),
{
    lemma_lev_triangle(fold(a), fold(b), fold(c));
}

/// The reverse triangle inequality: two strings are at least as far apart
/// as their distances from any third string differ.
pub proof fn lemma_dist_reverse_triangle(x: Seq<char>, a: Seq<char>, b: Seq<char>)
    ensures
        dist(a, b) + dist(x, b) >= dist(x, a),
        dist(a, b) + dist(x, a) >= dist(x, b),
{
    lemma_dist_triangle(x, b, a);
    lemma_dist_triangle(x, a, b);
    lemma_dist_symmetric(b, a);
}

/// The case-insensitive distance never exceeds the longer input's length.
pub proof fn lemma_dist_le_max(a: Seq<char>, b: Seq<char>)
    ensures
        a.len() <= b.len() ==> dist(a, b) <= b.len(),
        b.len() <= a.len() ==> dist(a, b) <= a.len(),
{
    lemma_lev_le_max(fold(a), fold(b));
}

} // verus!
