//! Value histograms, kept by the hdrhistogram crate.
use vstd::multiset::Multiset;
use vstd::prelude::*;

verus! {

/// The number of significant decimal digits that the histograms keep.
pub const SIGNIFICANT_DIGITS: u8 = 5;

/// The highest value that a histogram is asked to take.
pub const HIGHEST_RECORDABLE: u64 = 0x3fff_ffff_ffff_ffff;

#[verifier::external_type_specification]
#[verifier::external_body]
pub struct ExRecordError(hdrhistogram::RecordError);

/// A histogram of hdrhistogram with `u64` counts. Verus sees nothing inside
/// it, and nothing but this file reaches it.
#[verifier::external_body]
pub struct ValueHistogram {
    inner: hdrhistogram::Histogram<u64>,
}

/// The values that were recorded into a histogram, each as often as it was
/// recorded. This is the history of the histogram and no reading of its
/// fields: the crate keeps a count for each value level, so that values of
/// one level cannot be told apart afterwards. No contract reads a single
/// value back; `min` and `max` are functions of this history and of the
/// digits.
pub uninterp spec fn histogram_samples(h: ValueHistogram) -> Multiset<u64>;

/// The number of significant digits that a histogram was made with.
pub uninterp spec fn histogram_digits(h: ValueHistogram) -> u8;

/// Whether a histogram is as `Histogram::new` makes one: its lowest
/// discernible value is 1, and it resizes itself to take a value above its
/// highest trackable value.
pub uninterp spec fn histogram_self_sizing(h: ValueHistogram) -> bool;

/// What hdrhistogram's `min` returns on a histogram made by `Histogram::new`
/// with the given number of significant digits once the given values were
/// recorded.
pub uninterp spec fn lowest_level(samples: Multiset<u64>, digits: u8) -> u64;

/// What hdrhistogram's `max` returns on a histogram made by `Histogram::new`
/// with the given number of significant digits once the given values were
/// recorded.
pub uninterp spec fn highest_level(samples: Multiset<u64>, digits: u8) -> u64;

/// What hdrhistogram's `iter_recorded` yields on a histogram made by
/// `Histogram::new` with the given number of significant digits once the
/// given values were recorded: for each value level that holds a value, in
/// rising order, the value that the iterator stands at and the count of
/// the level.
pub uninterp spec fn recorded_levels(samples: Multiset<u64>, digits: u8) -> Seq<(u64, u64)>;

/// Calls `Histogram::new` of hdrhistogram, which makes an auto-resizing
/// histogram. It refuses more than five significant digits and, with the
/// bounds it sets itself, nothing else; the new histogram holds no value.
#[verifier::external_body]
fn histogram_new(sigfig: u8) -> (r: Option<ValueHistogram>)
    ensures
        sigfig <= 5 ==> r.is_some(),
        r.is_some() ==> histogram_samples(r.unwrap()) == Multiset::<u64>::empty(),
        r.is_some() ==> histogram_digits(r.unwrap()) == sigfig,
        r.is_some() ==> histogram_self_sizing(r.unwrap()),
{
    match hdrhistogram::Histogram::new(sigfig) {
        Ok(inner) => Some(ValueHistogram { inner }),
        Err(_) => None,
    }
}

/// Calls `Histogram::record` of hdrhistogram. Where it succeeds the value
/// is recorded once more; where it fails the histogram is as it was. It is
/// called only with values in the range up to which the crate documents
/// auto-resizing. A histogram that resizes itself takes every such value:
/// the one failure that the crate has for it is a counts array whose length,
/// a `u32`, does not fit `usize`, and `usize` has 32 bits at least. The call
/// changes neither the digits nor the bounds nor the resizing.
#[verifier::external_body]
fn histogram_record(h: &mut ValueHistogram, value: u64) -> (r: Result<
    (),
    hdrhistogram::RecordError,
>)
    requires
        value <= HIGHEST_RECORDABLE,
    ensures
        r.is_ok() ==> histogram_samples(*final(h)) == histogram_samples(*old(h)).insert(value),
        r.is_err() ==> histogram_samples(*final(h)) == histogram_samples(*old(h)),
        histogram_digits(*final(h)) == histogram_digits(*old(h)),
        histogram_self_sizing(*final(h)) == histogram_self_sizing(*old(h)),
        histogram_self_sizing(*old(h)) ==> r.is_ok(),
{
    h.inner.record(value)
}

/// Calls `Histogram::min` of hdrhistogram: the lowest recorded value level,
/// and 0 where nothing was recorded. The level is named for histograms as
/// `Histogram::new` makes them; with other bounds the same values may give
/// another level.
#[verifier::external_body]
fn histogram_min(h: &ValueHistogram) -> (r: u64)
    ensures
        histogram_self_sizing(*h) ==> r == lowest_level(
            histogram_samples(*h),
            histogram_digits(*h),
        ),
        histogram_self_sizing(*h) && histogram_samples(*h).len() == 0 ==> r == 0,
{
    h.inner.min()
}

/// Calls `Histogram::max` of hdrhistogram: the highest recorded value level.
/// Where nothing was recorded a histogram as `Histogram::new` makes it
/// returns 0: the crate's text leaves that case open, its code compares
/// with the value that the histogram starts from. The level is named for
/// histograms as `Histogram::new` makes them; with other bounds the same
/// values may give another level.
#[verifier::external_body]
fn histogram_max(h: &ValueHistogram) -> (r: u64)
    ensures
        histogram_self_sizing(*h) ==> r == highest_level(
            histogram_samples(*h),
            histogram_digits(*h),
        ),
        histogram_self_sizing(*h) && histogram_samples(*h).len() == 0 ==> r == 0,
{
    h.inner.max()
}

/// Calls `Histogram::iter_recorded` of hdrhistogram and hands out, for each
/// step, `value_iterated_to` and `count_at_value`. The steps are named for
/// histograms as `Histogram::new` makes them.
#[verifier::external_body]
fn histogram_levels(h: &ValueHistogram) -> (r: Vec<(u64, u64)>)
    ensures
        histogram_self_sizing(*h) ==> r@ == recorded_levels(
            histogram_samples(*h),
            histogram_digits(*h),
        ),
{
    h.inner.iter_recorded().map(|step| (step.value_iterated_to(), step.count_at_value())).collect()
}

impl ValueHistogram {
    /// The recorded values.
    pub open spec fn samples(&self) -> Multiset<u64> {
        histogram_samples(*self)
    }

    /// The number of significant decimal digits that the histogram keeps.
    pub open spec fn digits(&self) -> u8 {
        histogram_digits(*self)
    }

    /// Whether the histogram is as a new one is made: it tells values from
    /// 1 on apart and grows to take values above those it tracks.
    pub open spec fn self_sizing(&self) -> bool {
        histogram_self_sizing(*self)
    }

    /// An empty histogram that keeps `SIGNIFICANT_DIGITS` digits and grows
    /// with the values that it is given.
    pub fn new() -> (r: ValueHistogram)
        ensures
            r.samples() == Multiset::<u64>::empty(),
            r.digits() == SIGNIFICANT_DIGITS,
            r.self_sizing(),
    {
        histogram_new(SIGNIFICANT_DIGITS).unwrap()
    }

    /// Records a value and says whether it was taken. A value above the
    /// recordable range is refused without a call. A histogram as a new one
    /// is made takes every other value; one that does not grow decides by
    /// its bounds. A value that is taken is held once more afterwards; a
    /// value that is refused leaves the histogram as it was.
    pub fn record(&mut self, value: u64) -> (r: bool)
        ensures
            final(self).samples() == if r {
                old(self).samples().insert(value)
            } else {
                old(self).samples()
            },
            r ==> value <= HIGHEST_RECORDABLE,
            old(self).self_sizing() ==> r == (value <= HIGHEST_RECORDABLE),
            final(self).digits() == old(self).digits(),
            final(self).self_sizing() == old(self).self_sizing(),
    {
        if value > HIGHEST_RECORDABLE {
            return false;
        }
        match histogram_record(self, value) {
            Ok(()) => true,
            Err(_) => false,
        }
    }

    /// The value levels that hold a value, in rising order, each with its
    /// count: what a reader needs to work out means and quantiles.
    pub fn levels(&self) -> (r: Vec<(u64, u64)>)
        ensures
            self.self_sizing() ==> r@ == recorded_levels(self.samples(), self.digits()),
    {
        histogram_levels(self)
    }

    /// The lowest recorded value level; 0 where nothing was recorded.
    pub fn min(&self) -> (r: u64)
        ensures
            self.self_sizing() ==> r == lowest_level(self.samples(), self.digits()),
            self.self_sizing() && self.samples().len() == 0 ==> r == 0,
    {
        histogram_min(self)
    }

    /// The highest recorded value level; 0 where nothing was recorded.
    pub fn max(&self) -> (r: u64)
        ensures
            self.self_sizing() ==> r == highest_level(self.samples(), self.digits()),
            self.self_sizing() && self.samples().len() == 0 ==> r == 0,
    {
        histogram_max(self)
    }
}

/// The three histograms of an aggregate.
pub struct ProxyResponseHistograms {
    pub request_bytes: ValueHistogram,
    pub response_bytes: ValueHistogram,
    pub response_millis: ValueHistogram,
}

impl ProxyResponseHistograms {
    /// Whether each of the three histograms holds no value, keeps
    /// `SIGNIFICANT_DIGITS` digits and grows with the values it is given.
    pub open spec fn fresh(&self) -> bool {
        &&& self.request_bytes.samples() == Multiset::<u64>::empty()
        &&& self.response_bytes.samples() == Multiset::<u64>::empty()
        &&& self.response_millis.samples() == Multiset::<u64>::empty()
        &&& self.request_bytes.digits() == SIGNIFICANT_DIGITS
        &&& self.response_bytes.digits() == SIGNIFICANT_DIGITS
        &&& self.response_millis.digits() == SIGNIFICANT_DIGITS
        &&& self.request_bytes.self_sizing()
        &&& self.response_bytes.self_sizing()
        &&& self.response_millis.self_sizing()
    }

    /// Whether each of the three histograms is as a new one is made.
    pub open spec fn self_sizing(&self) -> bool {
        &&& self.request_bytes.self_sizing()
        &&& self.response_bytes.self_sizing()
        &&& self.response_millis.self_sizing()
    }

    /// Whether the three histograms are made as those of `other` are: with
    /// the same digits, and growing where those grow.
    pub open spec fn made_as(&self, other: ProxyResponseHistograms) -> bool {
        &&& self.request_bytes.digits() == other.request_bytes.digits()
        &&& self.response_bytes.digits() == other.response_bytes.digits()
        &&& self.response_millis.digits() == other.response_millis.digits()
        &&& self.request_bytes.self_sizing() == other.request_bytes.self_sizing()
        &&& self.response_bytes.self_sizing() == other.response_bytes.self_sizing()
        &&& self.response_millis.self_sizing() == other.response_millis.self_sizing()
    }

    /// Three empty histograms, each of `SIGNIFICANT_DIGITS` digits and
    /// growing with the values that it is given.
    pub fn new() -> (r: ProxyResponseHistograms)
        ensures
            r.fresh(),
    {
        ProxyResponseHistograms {
            request_bytes: ValueHistogram::new(),
            response_bytes: ValueHistogram::new(),
            response_millis: ValueHistogram::new(),
        }
    }
}

impl Default for ProxyResponseHistograms {
    fn default() -> (r: ProxyResponseHistograms)
        ensures
            r.fresh(),
    {
        ProxyResponseHistograms::new()
    }
}

} // verus!
