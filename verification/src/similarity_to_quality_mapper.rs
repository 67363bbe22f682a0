use vstd::prelude::*;
use crate::nsim::{divide_truncating, lemma_truncated_between, total, truncated};

verus! {

/// The two ways of turning similarities into a quality score. The scores
/// themselves are computed outside this library; here stands what each
/// mapper is configured with, and the feature that both are fed.
#[derive(Debug, PartialEq, Eq)]
pub enum SimilarityToQualityMapper {
    /// The closed-form mapping for speech; `scale_to_max_mos` says whether
    /// its output is rescaled so that the full similarity gives the highest
    /// quality score.
    Speech { scale_to_max_mos: bool },
    /// A trained regression model, read from `model_path`.
    Regression { model_path: String },
}

/// The similarities as mathematical integers.
pub open spec fn as_ints(similarities: Seq<i64>) -> Seq<int> {
    Seq::new(similarities.len(), |i: int| similarities[i] as int)
}

/// Mean of the similarities, rounded towards zero.
pub open spec fn mean_of(similarities: Seq<int>) -> int {
    truncated(total(similarities, similarities.len()), similarities.len() as int)
}

proof fn lemma_total_between(similarities: Seq<i64>, n: nat)
    requires
        n <= similarities.len(),
    ensures
        i64::MIN * n <= total(as_ints(similarities), n) <= i64::MAX * n,
    decreases n,
{
    if n > 0 {
        lemma_total_between(similarities, (n - 1) as nat);
    }
}

/// The feature that a quality mapper is fed: the mean similarity. There is
/// none for an empty vector.
pub fn mean_similarity(similarities: &Vec<i64>) -> (mean: Option<i64>)
    ensures
        mean is None <==> similarities@.len() == 0,
        mean matches Some(m) ==> m == mean_of(as_ints(similarities@)),
{
    if similarities.len() == 0 {
        return None;
    }
    let mut sum: i128 = 0;
    let mut i: usize = 0;
    while i < similarities.len()
        invariant
            i <= similarities@.len(),
            sum == total(as_ints(similarities@), i as nat),
        decreases similarities@.len() - i,
    {
        proof {
            lemma_total_between(similarities@, i as nat);
            lemma_total_between(similarities@, (i + 1) as nat);
        }
        sum = sum + similarities[i] as i128;
        i += 1;
    }
    proof {
        lemma_total_between(similarities@, similarities@.len());
        lemma_truncated_between(
            sum as int,
            similarities@.len() as int,
            i64::MIN as int,
            i64::MAX as int,
        );
    }
    let mean: i128 = divide_truncating(sum, similarities.len() as i128);
    Some(mean as i64)
}

} // verus!
