//! The encoding strategies and the rule each one applies to a group.
use vstd::prelude::*;
use crate::error::EncodeError;
use crate::key::{is_positive, positive};

verus! {

/// An encoding strategy with its parameters, fixed when the encoder is made.
#[derive(Clone, Copy, Debug, PartialEq, Eq, Structural)]
pub enum Encoders {
    /// Sigmoid-blended target encoding. `smoothing` is the bit pattern of a
    /// positive `f64`.
    TargetEncoder { min_samples_leaf: usize, smoothing: u64 },
    /// James-Stein shrinkage toward the prior.
    JamesSteinEncoder,
}

/// How the encoded value of one group is obtained.
#[derive(Clone, Copy, Debug, PartialEq, Eq, Structural)]
pub enum GroupRule {
    /// The value is the prior.
    Prior,
    /// With `m` the group's mean,
    /// `weight = 1 / (1 + exp(-(count - min_samples_leaf) / smoothing))` and
    /// the value is `prior * (1 - weight) + m * weight`.
    Sigmoid { count: usize, min_samples_leaf: usize, smoothing: u64 },
    /// With `m` and `v` the group's mean and variance (`ddof = 1`) and `g`
    /// the global variance,
    /// `b = 1 - v / (g + v) * (categories - 3) / (categories - 1)`, clamped to
    /// `[0, 1]`, and the value is `b * m + (1 - b) * prior`.
    Shrink { categories: usize },
}

/// The rule that `encoder` applies to a group of `count` rows, in a column of
/// `rows` rows and `categories` distinct categories.
pub open spec fn rule_spec(encoder: Encoders, count: nat, rows: nat, categories: nat) -> Result<
    GroupRule,
    EncodeError,
> {
    match encoder {
        Encoders::TargetEncoder { min_samples_leaf, smoothing } => {
            if count == 1 {
                Ok(GroupRule::Prior)
            } else {
                Ok(GroupRule::Sigmoid { count: count as usize, min_samples_leaf, smoothing })
            }
        },
        Encoders::JamesSteinEncoder => {
            if count == rows {
                Ok(GroupRule::Prior)
            } else if categories < 3 {
                Err(EncodeError::DegenerateShrinkage)
            } else {
                Ok(GroupRule::Shrink { categories: categories as usize })
            }
        },
    }
}

impl Encoders {
    /// The sigmoid-blended target encoder. Fails with `InvalidParameter`
    /// unless `smoothing` is the bit pattern of an `f64` greater than zero.
    pub fn new_target_encoder(min_samples_leaf: usize, smoothing: u64) -> (r: Result<
        Encoders,
        EncodeError,
    >)
        ensures
            is_positive(smoothing) ==> r == Ok::<Encoders, EncodeError>(
                Encoders::TargetEncoder { min_samples_leaf, smoothing },
            ),
            !is_positive(smoothing) ==> r == Err::<Encoders, EncodeError>(
                EncodeError::InvalidParameter,
            ),
    {
        if positive(smoothing) {
            Ok(Encoders::TargetEncoder { min_samples_leaf, smoothing })
        } else {
            Err(EncodeError::InvalidParameter)
        }
    }

    /// The James-Stein shrinkage encoder.
    pub fn new_james_stein_encoder() -> (r: Encoders)
        ensures
            r == Encoders::JamesSteinEncoder,
    {
        Encoders::JamesSteinEncoder
    }

    /// The rule for a group of `count` rows in a column of `rows` rows and
    /// `categories` distinct categories.
    pub fn rule_for(&self, count: usize, rows: usize, categories: usize) -> (r: Result<
        GroupRule,
        EncodeError,
    >)
        ensures
            r == rule_spec(*self, count as nat, rows as nat, categories as nat),
    {
        match *self {
            Encoders::TargetEncoder { min_samples_leaf, smoothing } => {
                if count == 1 {
                    Ok(GroupRule::Prior)
                } else {
                    Ok(GroupRule::Sigmoid { count, min_samples_leaf, smoothing })
                }
            },
            Encoders::JamesSteinEncoder => {
                if count == rows {
                    Ok(GroupRule::Prior)
                } else if categories < 3 {
                    Err(EncodeError::DegenerateShrinkage)
                } else {
                    Ok(GroupRule::Shrink { categories })
                }
            },
        }
    }
}

/// The degrees of freedom `n - ddof` of a variance over `n` values. Fails with
/// `InvalidParameter` when `ddof` exceeds `n`.
pub fn degrees_of_freedom(n: usize, ddof: usize) -> (r: Result<usize, EncodeError>)
    ensures
        ddof <= n ==> r == Ok::<usize, EncodeError>((n - ddof) as usize),
        ddof > n ==> r == Err::<usize, EncodeError>(EncodeError::InvalidParameter),
{
    if ddof > n {
        Err(EncodeError::InvalidParameter)
    } else {
        Ok(n - ddof)
    }
}

} // verus!
