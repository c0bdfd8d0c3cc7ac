//! Choosing among candidates by a count: the candidate with the greatest count
//! wins, and among candidates with the same count the one whose identifier
//! comes first.

use crate::ident::{
    id_before, id_less, lemma_id_before_asymmetric, lemma_id_before_irreflexive,
    lemma_id_before_total, lemma_id_before_transitive,
};
use vstd::prelude::*;

verus! {

/// Whether a candidate is preferred to another: it counts more, or as much
/// with the identifier that comes first.
pub open spec fn preferred(count_a: nat, id_a: Seq<char>, count_b: nat, id_b: Seq<char>) -> bool {
    count_a > count_b || (count_a == count_b && id_before(id_a, id_b))
}

/// A candidate: an identifier and the count that speaks for it.
#[derive(Clone, Copy, Debug)]
pub struct Candidate<'a> {
    pub id: &'a str,
    pub count: usize,
}

/// What a [`Candidate`] holds, with its texts as sequences of characters.
pub struct CandidateView {
    pub id: Seq<char>,
    pub count: nat,
}

impl<'a> View for Candidate<'a> {
    type V = CandidateView;

    open spec fn view(&self) -> CandidateView {
        CandidateView { id: self.id@, count: self.count as nat }
    }
}

impl<'a> DeepView for Candidate<'a> {
    type V = CandidateView;

    open spec fn deep_view(&self) -> CandidateView {
        self@
    }
}

/// Whether candidate `a` is preferred to candidate `b`.
pub open spec fn beats(a: CandidateView, b: CandidateView) -> bool {
    preferred(a.count, a.id, b.count, b.id)
}

/// Whether candidate `i` is the choice: no candidate is preferred to it, and
/// it is preferred to every candidate that stands before it.
pub open spec fn is_choice(c: Seq<CandidateView>, i: int) -> bool {
    &&& 0 <= i < c.len()
    &&& forall|j: int| 0 <= j < c.len() ==> !beats(#[trigger] c[j], c[i])
    &&& forall|j: int| 0 <= j < i ==> beats(c[i], #[trigger] c[j])
}

/// The choice among the candidates; none where there is no candidate.
pub open spec fn choice(c: Seq<CandidateView>) -> Option<usize> {
    if exists|i: int| is_choice(c, i) {
        Some((choose|i: int| is_choice(c, i)) as usize)
    } else {
        None
    }
}

/// Preference is transitive.
pub proof fn lemma_beats_transitive(a: CandidateView, b: CandidateView, c: CandidateView)
    requires
        beats(a, b),
        beats(b, c),
    ensures
        beats(a, c),
{
    if a.count == b.count && b.count == c.count {
        lemma_id_before_transitive(a.id, b.id, c.id);
    }
}

/// Of two candidates one is preferred, or they have the same count and
/// identifier; never both are preferred.
pub proof fn lemma_beats_total(a: CandidateView, b: CandidateView)
    ensures
        beats(a, b) || beats(b, a) || a == b,
        !(beats(a, b) && beats(b, a)),
        !beats(a, a),
{
    lemma_id_before_total(a.id, b.id);
    lemma_id_before_irreflexive(a.id);
    if id_before(a.id, b.id) {
        lemma_id_before_asymmetric(a.id, b.id);
    }
}

/// The same candidates have the same choice: selection depends on nothing but
/// its input, and ties are settled by the identifiers.
pub proof fn lemma_choice_unique(c: Seq<CandidateView>, i: int, j: int)
    requires
        is_choice(c, i),
        is_choice(c, j),
    ensures
        i == j,
{
    if i < j {
        assert(beats(c[j], c[i]));
        assert(!beats(c[j], c[i]));
    } else if j < i {
        assert(beats(c[i], c[j]));
        assert(!beats(c[i], c[j]));
    }
}

/// Whether the first candidate is preferred to the second.
pub fn is_preferred(a: &Candidate, b: &Candidate) -> (r: bool)
    ensures
        r == beats(a@, b@),
{
    a.count > b.count || (a.count == b.count && id_less(a.id, b.id))
}

/// Picks the choice among the candidates: the greatest count, and among equal
/// counts the identifier that comes first.
pub fn pick_best(candidates: &Vec<Candidate>) -> (r: Option<usize>)
    ensures
        r == choice(candidates.deep_view()),
        r matches Some(i) ==> is_choice(candidates.deep_view(), i as int),
        r is None <==> candidates.len() == 0,
{
    let ghost c = candidates.deep_view();
    if candidates.len() == 0 {
        assert forall|i: int| !is_choice(c, i) by {}
        return None;
    }
    let mut best: usize = 0;
    let mut i: usize = 1;
    proof {
        lemma_beats_total(c[0], c[0]);
    }
    while i < candidates.len()
        invariant
            c == candidates.deep_view(),
            0 <= best < i <= candidates.len(),
            forall|j: int| 0 <= j < i ==> !beats(#[trigger] c[j], c[best as int]),
            forall|j: int| 0 <= j < best ==> beats(c[best as int], #[trigger] c[j]),
        decreases candidates.len() - i,
    {
        assert(c[i as int] == candidates[i as int]@);
        assert(c[best as int] == candidates[best as int]@);
        if is_preferred(&candidates[i], &candidates[best]) {
            proof {
                let was = best as int;
                assert forall|j: int| 0 <= j < i + 1 implies !beats(
                    #[trigger] c[j],
                    c[i as int],
                ) by {
                    if j == i {
                        lemma_beats_total(c[j], c[j]);
                    } else if beats(c[j], c[i as int]) {
                        lemma_beats_transitive(c[j], c[i as int], c[was]);
                    }
                }
                assert forall|j: int| 0 <= j < i implies beats(c[i as int], #[trigger] c[j]) by {
                    lemma_beats_total(c[j], c[was]);
                    if beats(c[was], c[j]) {
                        lemma_beats_transitive(c[i as int], c[was], c[j]);
                    }
                }
            }
            best = i;
        }
        i += 1;
    }
    proof {
        assert(is_choice(c, best as int));
        let w = choose|w: int| is_choice(c, w);
        lemma_choice_unique(c, w, best as int);
    }
    Some(best)
}

/// The choice has the greatest count, and among the candidates with that
/// count the identifier that comes first.
pub proof fn lemma_choice_is_greatest(c: Seq<CandidateView>, i: int, j: int)
    requires
        is_choice(c, i),
        0 <= j < c.len(),
    ensures
        c[j].count <= c[i].count,
        c[j].count == c[i].count ==> !id_before(c[j].id, c[i].id),
{
    assert(!beats(c[j], c[i]));
}

} // verus!
