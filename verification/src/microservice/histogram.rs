//! The histogram that slack and response times are gathered in.
//!
//! It keeps two significant digits: values that the histogram does not tell apart share a
//! bin, and are counted together.

use hdrhistogram::Histogram;
use vstd::multiset::Multiset;
use vstd::prelude::*;

verus! {

/// An `hdrhistogram::Histogram` that keeps two significant digits and grows with what is
/// recorded in it.
#[verifier::external_body]
pub struct MsHistogram {
    inner: Histogram<u64>,
}

/// The values that were recorded in a histogram.
pub uninterp spec fn recorded_in(h: MsHistogram) -> Multiset<u64>;

/// The lowest value of the bin of `value`: at two significant digits the histogram tells
/// values apart by their eight leading binary digits.
pub open spec fn bin_of(value: nat) -> nat
    decreases value,
{
    if value < 256 {
        value
    } else {
        2 * bin_of(value / 2)
    }
}

/// How many significant digits a histogram keeps.
pub const DIGITS: u8 = 2;

/// The largest value that a histogram has to take.
pub const MAX_RECORDED: u64 = 0x3fff_ffff_ffff_ffff;

/// `hdrhistogram::Histogram::new`: an empty histogram that resizes itself. It fails for more
/// than five digits only.
#[verifier::external_body]
pub(crate) fn new_histogram(digits: u8) -> (h: MsHistogram)
    requires
        digits == DIGITS,
    ensures
        recorded_in(h) == Multiset::<u64>::empty(),
{
    MsHistogram { inner: Histogram::<u64>::new(digits).expect("the digits are in range") }
}

/// `hdrhistogram::Histogram::record`: counts `value`. It fails where the histogram cannot
/// grow that far; one that resizes itself takes any value up to half of `i64::MAX`.
#[verifier::external_body]
pub(crate) fn record_value(h: &mut MsHistogram, value: u64)
    requires
        recorded_in(*old(h)).len() < u64::MAX,
        value <= MAX_RECORDED,
    ensures
        recorded_in(*final(h)) == recorded_in(*old(h)).insert(value),
{
    h.inner.record(value).expect("the histogram grows as far as this")
}

/// `hdrhistogram::Histogram::len`: how many values were recorded.
#[verifier::external_body]
pub(crate) fn recorded_count(h: &MsHistogram) -> (n: u64)
    requires
        recorded_in(*h).len() <= u64::MAX,
    ensures
        n == recorded_in(*h).len(),
{
    h.inner.len()
}

/// `hdrhistogram::Histogram::count_between`, from 0: how many values were recorded whose bin
/// is that of `value` or a lower one. The bins of a histogram of two digits are the values
/// below 256, and above them runs of equal length within each doubling.
#[verifier::external_body]
pub(crate) fn count_up_to(h: &MsHistogram, value: u64) -> (n: u64)
    requires
        recorded_in(*h).len() <= u64::MAX,
    ensures
        n == recorded_in(*h).filter(|x: u64| bin_of(x as nat) <= bin_of(value as nat)).len(),
{
    h.inner.count_between(0, value)
}

} // verus!
