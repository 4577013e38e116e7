use vstd::prelude::*;
use crate::medium::{Medium, same_side_spec};
use crate::track::{Track, Tracklist};

verus! {

/// What a constraint asks of a tracklist.
#[derive(Debug, Clone)]
pub enum ConstraintKind {
    /// The track at this 0-based position has this title.
    AtPosition(String, usize),
    /// The first title immediately precedes the second.
    Adjacent(String, String),
    /// Both titles land on the same side of the medium.
    OnSameSide(String, String),
}

/// A weighted soft constraint.
#[derive(Debug, Clone)]
pub struct Constraint {
    pub kind: ConstraintKind,
    pub weight: usize,
}

/// Some position of `ts` holds title `a` and the next one title `b`.
pub open spec fn adjacent_spec(ts: Seq<Track>, a: Seq<char>, b: Seq<char>) -> bool {
    exists|k: int| 0 <= k && k + 1 < ts.len() && #[trigger] ts[k].title@ == a && ts[k + 1].title@ == b
}

/// Whether `ts`, laid out on `medium`, satisfies `kind`.
pub open spec fn satisfied(ts: Seq<Track>, kind: ConstraintKind, medium: Medium) -> bool {
    match kind {
        ConstraintKind::AtPosition(title, pos) => pos < ts.len() && ts[pos as int].title@ == title@,
        ConstraintKind::Adjacent(a, b) => adjacent_spec(ts, a@, b@),
        ConstraintKind::OnSameSide(a, b) => same_side_spec(
            ts,
            medium.max_duration_per_side as int,
            a@,
            b@,
        ),
    }
}

/// The weight that `c` contributes: its weight if satisfied, else nothing.
pub open spec fn contribution(ts: Seq<Track>, c: Constraint, medium: Medium) -> int {
    if satisfied(ts, c.kind, medium) {
        c.weight as int
    } else {
        0
    }
}

/// The sum of the weights of the constraints in `cs` that `ts` satisfies.
pub open spec fn score_spec(ts: Seq<Track>, cs: Seq<Constraint>, medium: Medium) -> int
    decreases cs.len(),
{
    if cs.len() == 0 {
        0
    } else {
        score_spec(ts, cs.drop_last(), medium) + contribution(ts, cs.last(), medium)
    }
}

/// The sum of all the weights in `cs`.
pub open spec fn total_weight(cs: Seq<Constraint>) -> int
    decreases cs.len(),
{
    if cs.len() == 0 {
        0
    } else {
        total_weight(cs.drop_last()) + cs.last().weight
    }
}

/// Whether some track titled `a` is immediately followed by one titled `b`.
fn adjacent(tracklist: &Tracklist, a: &String, b: &String) -> (r: bool)
    ensures
        r == adjacent_spec(tracklist.0@, a@, b@),
{
    let n = tracklist.0.len();
    let mut k: usize = 0;
    while k < n && k + 1 < n
        invariant
            n == tracklist.0@.len(),
            k <= n,
            forall|j: int|
                0 <= j < k && j + 1 < n ==> !(#[trigger] tracklist.0@[j].title@ == a@
                    && tracklist.0@[j + 1].title@ == b@),
        decreases n - k,
    {
        if tracklist.0[k].title == *a && tracklist.0[k + 1].title == *b {
            return true;
        }
        k = k + 1;
    }
    false
}

/// Whether `tracklist`, laid out on `medium`, satisfies `kind`.
pub fn is_satisfied(tracklist: &Tracklist, kind: &ConstraintKind, medium: &Medium) -> (r: bool)
    ensures
        r == satisfied(tracklist.0@, *kind, *medium),
{
    match kind {
        ConstraintKind::AtPosition(title, pos) => {
            *pos < tracklist.0.len() && tracklist.0[*pos].title == *title
        },
        ConstraintKind::Adjacent(a, b) => adjacent(tracklist, a, b),
        ConstraintKind::OnSameSide(a, b) => medium.on_same_side(tracklist, a.as_str(), b.as_str()),
    }
}

/// The score of `tracklist` on `medium`: the sum of the weights of the
/// constraints it satisfies. Each constraint counts on its own.
pub fn score_tracklist(tracklist: &Tracklist, constraints: &[Constraint], medium: &Medium) -> (r:
    usize)
    requires
        total_weight(constraints@) <= usize::MAX,
    ensures
        r == score_spec(tracklist.0@, constraints@, *medium),
{
    let ghost ts = tracklist.0@;
    let ghost cs = constraints@;
    let mut score: usize = 0;
    let mut i: usize = 0;
    while i < constraints.len()
        invariant
            ts == tracklist.0@,
            cs == constraints@,
            i <= cs.len(),
            total_weight(cs) <= usize::MAX,
            score == score_spec(ts, cs.take(i as int), *medium),
        decreases cs.len() - i,
    {
        proof {
            assert(cs.take(i as int + 1).drop_last() == cs.take(i as int));
            lemma_score_bounded(*tracklist, cs.take(i as int + 1), *medium);
            lemma_total_weight_prefix_le(cs, i as int + 1);
        }
        let c = &constraints[i];
        if is_satisfied(tracklist, &c.kind, medium) {
            score = score + c.weight;
        }
        i = i + 1;
    }
    proof {
        assert(cs.take(i as int) == cs);
    }
    score
}

/// The weights of a prefix sum to no more than all the weights.
pub proof fn lemma_total_weight_prefix_le(cs: Seq<Constraint>, n: int)
    requires
        0 <= n <= cs.len(),
    ensures
        0 <= total_weight(cs.take(n)) <= total_weight(cs),
    decreases cs.len(),
{
    if cs.len() > 0 {
        if n == cs.len() {
            assert(cs.take(n) == cs);
            lemma_total_weight_prefix_le(cs.drop_last(), n - 1);
        } else {
            assert(cs.drop_last().take(n) == cs.take(n));
            lemma_total_weight_prefix_le(cs.drop_last(), n);
        }
    }
}

/// Scoring is additive: the score under two constraint lists together is the
/// sum of the scores under each.
pub proof fn lemma_score_additive(
    tracklist: Tracklist,
    c1: Seq<Constraint>,
    c2: Seq<Constraint>,
    medium: Medium,
)
    ensures
        score_spec(tracklist.0@, c1 + c2, medium) == score_spec(tracklist.0@, c1, medium)
            + score_spec(tracklist.0@, c2, medium),
    decreases c2.len(),
{
    if c2.len() == 0 {
        assert(c1 + c2 == c1);
    } else {
        assert((c1 + c2).drop_last() == c1 + c2.drop_last());
        lemma_score_additive(tracklist, c1, c2.drop_last(), medium);
    }
}

/// The score of a tracklist lies between zero and the sum of all the
/// constraints' weights.
pub proof fn lemma_score_bounded(tracklist: Tracklist, constraints: Seq<Constraint>, medium: Medium)
    ensures
        0 <= score_spec(tracklist.0@, constraints, medium) <= total_weight(constraints),
    decreases constraints.len(),
{
    if constraints.len() > 0 {
        lemma_score_bounded(tracklist, constraints.drop_last(), medium);
    }
}

} // verus!
