//! Histograms of whole numbers.

use crate::contracts::Percentiles;
use vstd::multiset::Multiset;
use vstd::prelude::*;

verus! {

/// A `hdrhistogram::Histogram` of words.
#[verifier::external_body]
pub struct LagHistogram {
    inner: hdrhistogram::Histogram<u64>,
}

/// The values that a histogram has recorded.
pub uninterp spec fn recorded(histogram: LagHistogram) -> Multiset<u64>;

/// The significant digits that a histogram keeps.
pub uninterp spec fn digits_of(histogram: LagHistogram) -> u8;

/// The value that a histogram reports at a percentile.
pub uninterp spec fn reported_at(values: Multiset<u64>, digits: u8, percent: u32) -> u64;

/// The least value that a histogram reports.
pub uninterp spec fn reported_min(values: Multiset<u64>, digits: u8) -> u64;

/// The greatest value that a histogram reports.
pub uninterp spec fn reported_max(values: Multiset<u64>, digits: u8) -> u64;

/// `hdrhistogram::Histogram::new`: an empty histogram that grows with its values. It is to be had
/// for up to five significant digits.
#[verifier::external_body]
pub(crate) fn new_histogram(digits: u8) -> (result: Result<LagHistogram, String>)
    ensures
        match result {
            Ok(histogram) => recorded(histogram) == Multiset::<u64>::empty() && digits_of(histogram) == digits,
            Err(_) => digits > 5,
        },
{
    match hdrhistogram::Histogram::new(digits) {
        Ok(inner) => Ok(LagHistogram { inner }),
        Err(error) => Err(error.to_string()),
    }
}

/// `hdrhistogram::Histogram::record`: adds a value. It fails where a value is out of range and the
/// histogram may not grow, or where the number of its bins, a `u32`, does not fit a word; a histogram
/// that `new` has made may grow, and a word holds at least thirty-two bits.
#[verifier::external_body]
pub(crate) fn record_value(histogram: &mut LagHistogram, value: u64) -> (result: Result<(), String>)
    ensures
        result is Ok,
        digits_of(*final(histogram)) == digits_of(*old(histogram)),
        recorded(*final(histogram)) == recorded(*old(histogram)).insert(value),
{
    histogram.inner.record(value).map_err(|error| error.to_string())
}

/// `hdrhistogram::Histogram::is_empty`.
#[verifier::external_body]
pub(crate) fn is_unused(histogram: &LagHistogram) -> (result: bool)
    ensures
        result == (recorded(*histogram) == Multiset::<u64>::empty()),
{
    histogram.inner.is_empty()
}

/// `hdrhistogram::Histogram::value_at_percentile`: depends on the recorded values and on the
/// digits alone.
#[verifier::external_body]
pub(crate) fn value_at(histogram: &LagHistogram, percent: u32) -> (value: u64)
    ensures
        value == reported_at(recorded(*histogram), digits_of(*histogram), percent),
{
    histogram.inner.value_at_percentile(percent.into())
}

/// `hdrhistogram::Histogram::min`: depends on the recorded values and on the digits alone.
#[verifier::external_body]
pub(crate) fn least(histogram: &LagHistogram) -> (value: u64)
    ensures
        value == reported_min(recorded(*histogram), digits_of(*histogram)),
{
    histogram.inner.min()
}

/// `hdrhistogram::Histogram::max`: depends on the recorded values and on the digits alone.
#[verifier::external_body]
pub(crate) fn greatest(histogram: &LagHistogram) -> (value: u64)
    ensures
        value == reported_max(recorded(*histogram), digits_of(*histogram)),
{
    histogram.inner.max()
}

/// What a histogram reports of its values; all zero where there are none.
pub open spec fn reported(values: Multiset<u64>, digits: u8) -> Percentiles {
    if values == Multiset::<u64>::empty() {
        Percentiles { min: 0, p50: 0, p95: 0, p99: 0, max: 0 }
    } else {
        Percentiles {
            min: reported_min(values, digits),
            p50: reported_at(values, digits, 50),
            p95: reported_at(values, digits, 95),
            p99: reported_at(values, digits, 99),
            max: reported_max(values, digits),
        }
    }
}

/// Reads the percentiles off a histogram.
pub fn histogram_percentiles(histogram: &LagHistogram) -> (result: Percentiles)
    ensures
        result == reported(recorded(*histogram), digits_of(*histogram)),
{
    if is_unused(histogram) {
        return Percentiles { min: 0, p50: 0, p95: 0, p99: 0, max: 0 };
    }
    Percentiles {
        min: least(histogram),
        p50: value_at(histogram, 50),
        p95: value_at(histogram, 95),
        p99: value_at(histogram, 99),
        max: greatest(histogram),
    }
}

} // verus!
