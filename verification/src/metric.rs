//! Distance metrics.
use vstd::prelude::*;

verus! {

/// The metric by which an index compares vectors.
#[derive(Clone, Copy, Debug, PartialEq, Eq, Structural)]
pub enum MetricType {
    L2,
    InnerProduct,
    Cosine,
}

impl MetricType {
    /// The number that stands for a metric in an index file.
    pub open spec fn as_code(self) -> u32 {
        match self {
            MetricType::L2 => 0,
            MetricType::InnerProduct => 1,
            MetricType::Cosine => 2,
        }
    }

    /// The number that stands for the metric in an index file.
    pub fn code(self) -> (code: u32)
        ensures
            code == self.as_code(),
    {
        match self {
            MetricType::L2 => 0,
            MetricType::InnerProduct => 1,
            MetricType::Cosine => 2,
        }
    }

    /// The metric that a number stands for, if it stands for one.
    pub fn from_code(code: u32) -> (metric: Option<MetricType>)
        ensures
            metric == metric_of(code),
    {
        match code {
            0 => Some(MetricType::L2),
            1 => Some(MetricType::InnerProduct),
            2 => Some(MetricType::Cosine),
            _ => None,
        }
    }
}

/// The metric that a number stands for, if it stands for one.
pub open spec fn metric_of(code: u32) -> Option<MetricType> {
    match code {
        0 => Some(MetricType::L2),
        1 => Some(MetricType::InnerProduct),
        2 => Some(MetricType::Cosine),
        _ => None,
    }
}

/// A metric comes back from its number, and no other number stands for it.
pub proof fn law_metric_codes(metric: MetricType, code: u32)
    ensures
        metric_of(metric.as_code()) == Some(metric),
        metric_of(code) == Some(metric) ==> code == metric.as_code(),
{
}

} // verus!
