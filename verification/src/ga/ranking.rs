//! Ranking by fitness: the first minimum of a sequence of scores.
//!
//! Lower fitness is better. Scores are compared with their partial order, so
//! two scores may fail to compare; a ranking then ends with the two
//! positions that it could not tell apart.

use core::cmp::Ordering;
use vstd::prelude::*;
use vstd::std_specs::cmp::PartialOrdSpec;

verus! {

/// Two members of a population whose fitness values cannot be ordered.
#[derive(Clone, Copy, Debug, PartialEq, Eq, Structural)]
pub struct IncomparableFitness {
    /// Position of the member that led the ranking.
    pub first: usize,
    /// Position of the member that challenged it.
    pub second: usize,
}

/// A comparison of two values of `O` depends on the two values alone, and
/// `partial_cmp_spec` tells its result. This holds of the integer types. It
/// does not hold of the floating-point types, of whose comparisons nothing
/// is known here.
pub open spec fn compares_by_value<O: PartialOrd>() -> bool {
    O::obeys_partial_cmp_spec()
}

/// The two scores can be ordered.
pub open spec fn comparable<O: PartialOrd>(a: O, b: O) -> bool {
    a.partial_cmp_spec(&b) is Some
}

/// `a` is strictly greater, and so worse, than `b`.
pub open spec fn worse<O: PartialOrd>(a: O, b: O) -> bool {
    a.partial_cmp_spec(&b) == Some(Ordering::Greater)
}

/// `a` is less than or equal to `b`.
pub open spec fn no_worse<O: PartialOrd>(a: O, b: O) -> bool {
    a.partial_cmp_spec(&b) == Some(Ordering::Less) || a.partial_cmp_spec(&b) == Some(
        Ordering::Equal,
    )
}

/// Ranks the first `upto` scores: the leader is the first score, and a later
/// score takes the lead only where the leader is strictly worse. Gives the
/// leader's position, or the positions of leader and challenger at the first
/// comparison that failed.
pub open spec fn contest<O: PartialOrd>(scores: Seq<O>, upto: nat) -> Result<int, (int, int)>
    decreases upto,
{
    if upto <= 1 {
        Ok(0)
    } else {
        match contest(scores, (upto - 1) as nat) {
            Err(clash) => Err(clash),
            Ok(leader) => {
                let challenger = upto - 1;
                if !comparable(scores[leader], scores[challenger]) {
                    Err((leader, challenger))
                } else if worse(scores[leader], scores[challenger]) {
                    Ok(challenger)
                } else {
                    Ok(leader)
                }
            },
        }
    }
}

/// The position of the first minimum of `scores`, or the first two positions
/// that could not be compared.
pub open spec fn first_minimum<O: PartialOrd>(scores: Seq<O>) -> Result<int, (int, int)> {
    contest(scores, scores.len())
}

/// Any two of the scores can be ordered.
pub open spec fn all_comparable<O: PartialOrd>(scores: Seq<O>) -> bool {
    forall|i: int, j: int|
        0 <= i < scores.len() && 0 <= j < scores.len() ==> #[trigger] comparable(
            scores[i],
            scores[j],
        )
}

/// Any two values of `O` can be ordered.
pub open spec fn always_comparable<O: PartialOrd>() -> bool {
    forall|a: O, b: O| #[trigger] comparable(a, b)
}

/// On the scores, the order is total and transitive.
pub open spec fn totally_ordered<O: PartialOrd>(scores: Seq<O>) -> bool {
    &&& all_comparable(scores)
    &&& forall|i: int, j: int|
        0 <= i < scores.len() && 0 <= j < scores.len() ==> #[trigger] no_worse(scores[i], scores[j])
            || no_worse(scores[j], scores[i])
    &&& forall|i: int, j: int, k: int|
        0 <= i < scores.len() && 0 <= j < scores.len() && 0 <= k < scores.len() && #[trigger] no_worse(
            scores[i],
            scores[j],
        ) && #[trigger] no_worse(scores[j], scores[k]) ==> no_worse(scores[i], scores[k])
}

/// A ranking names positions among the scores it ranked, the challenger of a
/// clash after its leader, and a clash only for two scores that cannot be
/// ordered.
pub proof fn lemma_contest_in_range<O: PartialOrd>(scores: Seq<O>, upto: nat)
    requires
        0 < upto <= scores.len(),
    ensures
        match contest(scores, upto) {
            Ok(leader) => 0 <= leader < upto,
            Err((leader, challenger)) => 0 <= leader < challenger < upto && !comparable(
                scores[leader],
                scores[challenger],
            ),
        },
        all_comparable(scores) ==> contest(scores, upto) is Ok,
    decreases upto,
{
    if upto > 1 {
        lemma_contest_in_range(scores, (upto - 1) as nat);
    }
}

/// Under a total and transitive order the winner of a ranking is a minimum:
/// no score is better than the winner's, and every score before the winner's
/// is strictly worse.
pub proof fn lemma_winner_is_first_minimum<O: PartialOrd>(scores: Seq<O>, upto: nat)
    requires
        0 < upto <= scores.len(),
        totally_ordered(scores),
    ensures
        contest(scores, upto) matches Ok(winner) && 0 <= winner < upto && (forall|k: int|
            0 <= k < upto ==> #[trigger] no_worse(scores[winner], scores[k])) && (forall|k: int|
            0 <= k < winner ==> !#[trigger] no_worse(scores[k], scores[winner])),
    decreases upto,
{
    if upto > 1 {
        lemma_winner_is_first_minimum(scores, (upto - 1) as nat);
        lemma_contest_in_range(scores, upto);
        let leader = contest(scores, (upto - 1) as nat)->Ok_0;
        let challenger = upto - 1;
        let winner = contest(scores, upto)->Ok_0;
        assert(comparable(scores[leader], scores[challenger]));
        if worse(scores[leader], scores[challenger]) {
            assert(!no_worse(scores[leader], scores[challenger]));
            assert(no_worse(scores[challenger], scores[leader]));
            assert forall|k: int| 0 <= k < upto implies #[trigger] no_worse(
                scores[winner],
                scores[k],
            ) by {
                if k < challenger {
                    assert(no_worse(scores[leader], scores[k]));
                } else {
                    assert(no_worse(scores[challenger], scores[challenger]));
                }
            }
            assert forall|k: int| 0 <= k < winner implies !#[trigger] no_worse(
                scores[k],
                scores[winner],
            ) by {
                assert(no_worse(scores[leader], scores[k]));
                if no_worse(scores[k], scores[challenger]) {
                    assert(no_worse(scores[leader], scores[challenger]));
                }
            }
        } else {
            lemma_not_worse_is_no_worse(scores[leader], scores[challenger]);
        }
    } else {
        assert(no_worse(scores[0], scores[0]));
    }
}

/// The order of the integers is total and transitive, any two of them can be
/// compared, and their comparisons go by value. Shown here for `u64`; the
/// other integer types are ordered in the same way.
pub proof fn lemma_integer_scores_are_totally_ordered(scores: Seq<u64>)
    ensures
        compares_by_value::<u64>(),
        always_comparable::<u64>(),
        totally_ordered(scores),
{
}

proof fn lemma_not_worse_is_no_worse<O: PartialOrd>(a: O, b: O)
    requires
        comparable(a, b),
        !worse(a, b),
    ensures
        no_worse(a, b),
{
    match a.partial_cmp_spec(&b) {
        Some(Ordering::Less) => {},
        Some(Ordering::Equal) => {},
        Some(Ordering::Greater) => {},
        None => {},
    }
}

/// Compares the leader of a ranking with a challenger: whether the leader is
/// strictly worse, or `None` where the two cannot be ordered.
pub fn loses_to<O: PartialOrd>(leader: &O, challenger: &O) -> (verdict: Option<bool>)
    ensures
        compares_by_value::<O>() ==> verdict == if comparable(*leader, *challenger) {
            Some(worse(*leader, *challenger))
        } else {
            None::<bool>
        },
{
    match leader.partial_cmp(challenger) {
        None => None,
        Some(Ordering::Greater) => Some(true),
        Some(_) => Some(false),
    }
}

} // verus!
