//! A greedy composer of multi-word spelling suggestions.
//!
//! The host looks up ranked spelling candidates for each word of a query;
//! this type composes whole-query suggestions from them, best candidates
//! first, and walks to the next suggestion by discarding the weakest
//! alternative still in play.

use vstd::prelude::*;

verus! {

/// One ranked spelling candidate for a single word.
pub struct Candidate {
    pub word: String,
    pub score: i32,
}

/// The per-word candidate lists of one query, each list ranked best first.
pub struct SpellfixCandidates {
    candidates: Vec<Vec<Candidate>>,
    exhausted: bool,
}

/// The ghost mirror of the candidate lists: each candidate as its word and
/// score.
pub open spec fn lists_model(cs: Seq<Vec<Candidate>>) -> Seq<Seq<(Seq<char>, int)>> {
    cs.map_values(
        |v: Vec<Candidate>| v@.map_values(|c: Candidate| (c.word@, c.score as int)),
    )
}

/// The words of the current best suggestion, concatenated.
pub open spec fn composed_spec(ls: Seq<Seq<(Seq<char>, int)>>) -> Seq<char>
    decreases ls.len(),
{
    if ls.len() == 0 {
        Seq::empty()
    } else {
        composed_spec(ls.drop_last()) + ls.last().first().0
    }
}

/// The words of the current best suggestion, joined with spaces; a word
/// whose list is empty contributes an empty piece.
pub open spec fn joined_spec(ls: Seq<Seq<(Seq<char>, int)>>) -> Seq<char>
    decreases ls.len(),
{
    let w: Seq<char> = if ls.len() == 0 || ls.last().len() == 0 {
        Seq::empty()
    } else {
        ls.last().first().0
    };
    if ls.len() <= 1 {
        w
    } else {
        joined_spec(ls.drop_last()) + seq![' '] + w
    }
}

impl SpellfixCandidates {
    /// The ghost mirror of the candidate lists.
    pub closed spec fn lists(self) -> Seq<Seq<(Seq<char>, int)>> {
        lists_model(self.candidates@)
    }

    /// Whether the composer has run out of suggestions.
    pub closed spec fn is_exhausted(self) -> bool {
        self.exhausted
    }

    /// Wraps freshly fetched candidate lists.
    pub fn new(candidates: Vec<Vec<Candidate>>) -> (r: Self)
        ensures
            r.lists() == lists_model(candidates@),
            !r.is_exhausted(),
    {
        Self { candidates, exhausted: false }
    }

    /// The best whole-query suggestion: every word's best candidate, joined
    /// with spaces.
    pub fn get_top_candidate(&self) -> (r: String)
        ensures
            r@ == joined_spec(self.lists()),
    {
        let mut r = String::new();
        let ghost ls = self.lists();
        for i in 0..self.candidates.len()
            invariant
                ls == lists_model(self.candidates@),
                ls.len() == self.candidates@.len(),
                r@ == joined_spec(ls.take(i as int)),
        {
            if i > 0 {
                let sp = " ";
                proof {
                    reveal_strlit(" ");
                }
                r.append(sp);
            }
            if self.candidates[i].len() > 0 {
                r.append(self.candidates[i][0].word.as_str());
            }
            proof {
                assert(ls.take(i + 1).drop_last() =~= ls.take(i as int));
                assert(ls.take(i + 1).last() == ls[i as int]);
                assert(ls[i as int] == self.candidates@[i as int]@.map_values(
                    |c: Candidate| (c.word@, c.score as int),
                ));
                if i == 0 {
                    assert(r@ =~= joined_spec(ls.take(i + 1)));
                } else {
                    assert(r@ =~= joined_spec(ls.take(i + 1)));
                }
            }
        }
        proof {
            assert(ls.take(ls.len() as int) =~= ls);
        }
        r
    }

    /// The next whole-query suggestion: the words currently in front,
    /// concatenated; afterwards the weakest alternative still in play is
    /// discarded, or the composer marks itself exhausted when no word has an
    /// alternative left.
    pub fn next_candidate(&mut self) -> (r: Option<String>)
        requires
            forall|i: int|
                0 <= i < old(self).lists().len() ==> (#[trigger] old(self).lists()[i]).len() > 0,
        ensures
            old(self).is_exhausted() ==> r is None && *final(self) == *old(self),
            !old(self).is_exhausted() ==> {
                &&& r is Some
                &&& r.unwrap()@ == composed_spec(old(self).lists())
                &&& forall|i: int|
                    0 <= i < final(self).lists().len() ==> (#[trigger] final(self).lists()[i]).len()
                        > 0
                &&& if exists|i: int|
                    0 <= i < old(self).lists().len() && (#[trigger] old(self).lists()[i]).len() > 1 {
                    exists|i: int|
                        {
                            &&& 0 <= i < old(self).lists().len()
                            &&& (#[trigger] old(self).lists()[i]).len() > 1
                            &&& forall|j: int|
                                0 <= j < old(self).lists().len() && (#[trigger] old(
                                    self,
                                ).lists()[j]).len() > 1 ==> old(self).lists()[j].first().1 >= old(
                                    self,
                                ).lists()[i].first().1
                            &&& forall|j: int|
                                0 <= j < i && (#[trigger] old(self).lists()[j]).len() > 1 ==> old(
                                    self,
                                ).lists()[j].first().1 > old(self).lists()[i].first().1
                            &&& final(self).lists() == old(self).lists().update(
                                i,
                                old(self).lists()[i].drop_last(),
                            )
                            &&& !final(self).is_exhausted()
                        }
                } else {
                    final(self).lists() == old(self).lists() && final(self).is_exhausted()
                }
            },
    {
        if self.exhausted {
            return None;
        }
        let ghost ls = self.lists();
        let mut composed = String::new();
        let mut best: usize = 0;
        let mut found = false;
        for i in 0..self.candidates.len()
            invariant
                ls == lists_model(self.candidates@),
                ls.len() == self.candidates@.len(),
                forall|w: int| 0 <= w < ls.len() ==> (#[trigger] ls[w]).len() > 0,
                composed@ == composed_spec(ls.take(i as int)),
                found ==> best < i && ls[best as int].len() > 1,
                found ==> forall|j: int|
                    0 <= j < i && (#[trigger] ls[j]).len() > 1 ==> ls[j].first().1 >= ls[
                        best as int].first().1,
                found ==> forall|j: int|
                    0 <= j < best && (#[trigger] ls[j]).len() > 1 ==> ls[j].first().1 > ls[
                        best as int].first().1,
                !found ==> forall|j: int| 0 <= j < i ==> (#[trigger] ls[j]).len() <= 1,
        {
            proof {
                assert(ls[i as int] == self.candidates@[i as int]@.map_values(
                    |c: Candidate| (c.word@, c.score as int),
                ));
                assert(ls.take(i + 1).drop_last() =~= ls.take(i as int));
                assert(ls.take(i + 1).last() == ls[i as int]);
            }
            composed.append(self.candidates[i][0].word.as_str());
            proof {
                assert(composed@ =~= composed_spec(ls.take(i + 1)));
            }
            if self.candidates[i].len() > 1 {
                if !found {
                    best = i;
                    found = true;
                } else if self.candidates[i][0].score < self.candidates[best][0].score {
                    best = i;
                }
            }
        }
        proof {
            assert(ls.take(ls.len() as int) =~= ls);
        }
        if found {
            let ghost old_lists = ls;
            let lst = &mut self.candidates[best];
            lst.pop();
            proof {
                assert forall|w: int| 0 <= w < self.lists().len() implies self.lists()[w]
                    == old_lists.update(best as int, old_lists[best as int].drop_last())[w] by {
                    assert(self.lists()[w] == self.candidates@[w]@.map_values(
                        |c: Candidate| (c.word@, c.score as int),
                    ));
                    if w == best as int {
                        assert(self.candidates@[w]@.map_values(
                            |c: Candidate| (c.word@, c.score as int),
                        ) =~= old_lists[best as int].drop_last());
                    }
                }
                assert(self.lists() =~= old_lists.update(
                    best as int,
                    old_lists[best as int].drop_last(),
                ));
                assert(old_lists[best as int].drop_last().len() > 0);
                assert forall|w: int| 0 <= w < self.lists().len() implies (
                #[trigger] self.lists()[w]).len() > 0 by {
                    if w != best {
                        assert(self.lists()[w] == old_lists[w]);
                    }
                }
            }
        } else {
            self.exhausted = true;
        }
        Some(composed)
    }
}

} // verus!
