//! Distributions of whole numbers.

use crate::double::Real;
use vstd::prelude::*;

verus! {

/// A distribution of whole numbers.
#[derive(Debug, Clone, Copy)]
pub enum UIntDistribution {
    Fixed { value: u64 },
    Uniform { min: u64, max: u64 },
    LogNormal { median: Real, sigma: Real, min: u64, max: u64 },
}

/// What is wrong with a distribution.
#[derive(Debug, Clone, Copy)]
pub enum DistributionError {
    UniformRange,
    Median,
    Sigma,
    LogNormalRange,
}

impl DistributionError {
    /// The words of the error, after the name of the distribution.
    pub open spec fn text(self) -> Seq<char> {
        match self {
            DistributionError::UniformRange => " uniform minimum exceeds its maximum"@,
            DistributionError::Median => " log-normal median must be positive and finite"@,
            DistributionError::Sigma => " log-normal sigma must be positive and finite"@,
            DistributionError::LogNormalRange => " log-normal minimum exceeds its maximum"@,
        }
    }

    /// Puts the error in words.
    pub fn message(&self) -> (text: &'static str)
        ensures
            text@ == self.text(),
    {
        match self {
            DistributionError::UniformRange => " uniform minimum exceeds its maximum",
            DistributionError::Median => " log-normal median must be positive and finite",
            DistributionError::Sigma => " log-normal sigma must be positive and finite",
            DistributionError::LogNormalRange => " log-normal minimum exceeds its maximum",
        }
    }
}

impl UIntDistribution {
    pub fn fixed(value: u64) -> (result: Self)
        ensures
            result == (UIntDistribution::Fixed { value }),
    {
        UIntDistribution::Fixed { value }
    }

    pub fn uniform(min: u64, max: u64) -> (result: Self)
        ensures
            result == (UIntDistribution::Uniform { min, max }),
    {
        UIntDistribution::Uniform { min, max }
    }

    pub fn log_normal(median: Real, sigma: Real, min: u64, max: u64) -> (result: Self)
        ensures
            result == (UIntDistribution::LogNormal { median, sigma, min, max }),
    {
        UIntDistribution::LogNormal { median, sigma, min, max }
    }

    /// What is wrong with the distribution, if anything.
    pub open spec fn failure(self) -> Option<DistributionError> {
        match self {
            UIntDistribution::Fixed { value } => None,
            UIntDistribution::Uniform { min, max } => if min > max {
                Some(DistributionError::UniformRange)
            } else {
                None
            },
            UIntDistribution::LogNormal { median, sigma, min, max } => if !median.positive() {
                Some(DistributionError::Median)
            } else if !sigma.positive() {
                Some(DistributionError::Sigma)
            } else if min > max {
                Some(DistributionError::LogNormalRange)
            } else {
                None
            },
        }
    }

    /// Finds what is wrong with the distribution, if anything.
    pub fn validate(&self) -> (result: Result<(), DistributionError>)
        ensures
            match self.failure() {
                Some(error) => result == Err::<(), DistributionError>(error),
                None => result is Ok,
            },
    {
        match self {
            UIntDistribution::Fixed { value: _ } => Ok(()),
            UIntDistribution::Uniform { min, max } => if *min > *max {
                Err(DistributionError::UniformRange)
            } else {
                Ok(())
            },
            UIntDistribution::LogNormal { median, sigma, min, max } => if !median.is_positive() {
                Err(DistributionError::Median)
            } else if !sigma.is_positive() {
                Err(DistributionError::Sigma)
            } else if *min > *max {
                Err(DistributionError::LogNormalRange)
            } else {
                Ok(())
            },
        }
    }

    /// The least and the greatest value.
    pub open spec fn range(self) -> (u64, u64) {
        match self {
            UIntDistribution::Fixed { value } => (value, value),
            UIntDistribution::Uniform { min, max } => (min, max),
            UIntDistribution::LogNormal { median, sigma, min, max } => (min, max),
        }
    }

    /// The least and the greatest value.
    pub fn bounds(&self) -> (result: (u64, u64))
        ensures
            result == self.range(),
    {
        match self {
            UIntDistribution::Fixed { value } => (*value, *value),
            UIntDistribution::Uniform { min, max } => (*min, *max),
            UIntDistribution::LogNormal { median: _, sigma: _, min, max } => (*min, *max),
        }
    }
}

} // verus!
