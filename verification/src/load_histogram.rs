//! Rolling account-load latency histograms: one covering the last minute,
//! one the last hour, each periodically reported and reset. The histogram
//! buckets live in the `histogram` crate; the interval bookkeeping — when a
//! report is due, and the rollover afterwards — is verified here. Reading
//! percentiles and sending the datapoint is the unverified reporter's job,
//! through the accessors.
//!
//! Time enters only as caller-supplied nanosecond timestamps, so every
//! decision is a function of its arguments.

use vstd::prelude::*;

verus! {

use vstd::arithmetic::power2::pow2;
use vstd::arithmetic::power2::lemma2_to64;

/// Declares the outside histogram type so it can stand in fields and
/// signatures; its contents are opaque here.
#[verifier::external_type_specification]
#[verifier::external_body]
pub struct ExHistogram(histogram::Histogram);

/// The largest value the histogram's configuration can record: a fixed
/// property of the histogram value, set at construction from the
/// maximum-value power and preserved by recording and resetting.
pub uninterp spec fn histogram_max_value(h: histogram::Histogram) -> u64;

/// The geometry constraints under which the outside crate accepts a
/// histogram configuration: a maximum-value power of at most 64, a smaller
/// grouping power below 32, and a total bucket count that fits in 32 bits.
pub open spec fn valid_histogram_geometry(grouping_power: u8, max_value_power: u8) -> bool {
    &&& max_value_power <= 64
    &&& grouping_power < max_value_power
    &&& grouping_power < 32
    &&& pow2(grouping_power as nat) * ((max_value_power - grouping_power + 1) as nat) <= u32::MAX
}

/// Relies on histogram::Histogram::new: it returns a histogram whenever the
/// parameters satisfy the crate's geometry checks, and an error otherwise;
/// the built histogram records values up to the maximum its maximum-value
/// power calls for.
#[verifier::external_body]
fn build_histogram(grouping_power: u8, max_value_power: u8) -> (r: Option<histogram::Histogram>)
    ensures
        valid_histogram_geometry(grouping_power, max_value_power) ==> r is Some,
        r matches Some(h) ==> histogram_max_value(h) == (if max_value_power == 64 {
            u64::MAX
        } else {
            (pow2(max_value_power as nat) - 1) as u64
        }),
{
    histogram::Histogram::new(grouping_power, max_value_power).ok()
}

/// Relies on histogram::Histogram::increment: it counts the value into its
/// bucket, succeeding for every value up to the configured maximum and
/// failing above it; the configuration is untouched either way.
#[verifier::external_body]
fn histogram_increment(h: &mut histogram::Histogram, value: u64) -> (ok: bool)
    ensures
        value <= histogram_max_value(*old(h)) ==> ok,
        histogram_max_value(*final(h)) == histogram_max_value(*old(h)),
{
    h.increment(value).is_ok()
}

/// Relies on histogram::Histogram::reset: it zeroes every bucket count and
/// leaves the configuration untouched.
#[verifier::external_body]
fn histogram_reset(h: &mut histogram::Histogram)
    ensures
        histogram_max_value(*final(h)) == histogram_max_value(*old(h)),
{
    h.reset()
}

/// One rolling histogram: its buckets, when it last reported, how often it
/// reports, and the datapoint name it reports under.
struct Inner {
    histogram: histogram::Histogram,
    previous_submit_ns: u64,
    submit_interval_ns: u64,
    datapoint_name: &'static str,
}

/// Account-load latency histograms over two windows: one submitted every
/// minute, one every hour.
pub struct LoadAccountsHistogram {
    histogram_1_minute: Inner,
    histogram_1_hour: Inner,
}

/// Nanoseconds in the one-minute reporting interval.
pub const MINUTE_INTERVAL_NS: u64 = 60_000_000_000;

/// Nanoseconds in the one-hour reporting interval.
pub const HOUR_INTERVAL_NS: u64 = 3_600_000_000_000;

/// Whether a report is due: the interval has elapsed since the previous
/// submission. An earlier `now` (a non-monotone clock) counts as not due.
pub open spec fn due(now_ns: u64, previous_ns: u64, interval_ns: u64) -> bool {
    now_ns >= previous_ns && now_ns - previous_ns >= interval_ns
}

impl LoadAccountsHistogram {
    /// Well-formedness: both histograms record the full value range — so a
    /// recording never fails — and the datapoint names are the two fixed
    /// report names.
    pub closed spec fn wf(&self) -> bool {
        &&& histogram_max_value(self.histogram_1_minute.histogram) == u64::MAX
        &&& histogram_max_value(self.histogram_1_hour.histogram) == u64::MAX
        &&& self.histogram_1_minute.datapoint_name@ == "load_accounts_histogram-1_minute"@
        &&& self.histogram_1_hour.datapoint_name@ == "load_accounts_histogram-1_hour"@
    }

    /// When the one-minute histogram last reported.
    pub closed spec fn previous_submit_1_minute(&self) -> u64 {
        self.histogram_1_minute.previous_submit_ns
    }

    /// When the one-hour histogram last reported.
    pub closed spec fn previous_submit_1_hour(&self) -> u64 {
        self.histogram_1_hour.previous_submit_ns
    }

    /// The one-minute reporting interval.
    pub closed spec fn interval_1_minute(&self) -> u64 {
        self.histogram_1_minute.submit_interval_ns
    }

    /// The one-hour reporting interval.
    pub closed spec fn interval_1_hour(&self) -> u64 {
        self.histogram_1_hour.submit_interval_ns
    }

    /// Builds the two histograms; `now_ns` is the construction time, from
    /// which both reporting intervals start. Returns `None` only if the
    /// outside crate rejects the fixed, valid geometry — which its checks do
    /// not.
    pub fn new(now_ns: u64) -> (r: Option<Self>)
        ensures
            r is Some,
            r matches Some(h) ==> h.wf() && h.previous_submit_1_minute() == now_ns
                && h.previous_submit_1_hour() == now_ns && h.interval_1_minute()
                == MINUTE_INTERVAL_NS && h.interval_1_hour() == HOUR_INTERVAL_NS,
    {
        proof {
            lemma2_to64();
            assert(valid_histogram_geometry(7, 64));
        }
        let minute = match build_histogram(7, 64) {
            Some(h) => h,
            None => {
                return None;
            },
        };
        let hour = match build_histogram(7, 64) {
            Some(h) => h,
            None => {
                return None;
            },
        };
        Some(
            LoadAccountsHistogram {
                histogram_1_minute: Inner {
                    histogram: minute,
                    previous_submit_ns: now_ns,
                    submit_interval_ns: MINUTE_INTERVAL_NS,
                    datapoint_name: "load_accounts_histogram-1_minute",
                },
                histogram_1_hour: Inner {
                    histogram: hour,
                    previous_submit_ns: now_ns,
                    submit_interval_ns: HOUR_INTERVAL_NS,
                    datapoint_name: "load_accounts_histogram-1_hour",
                },
            },
        )
    }

    /// Records `sample_ns` into both histograms; it will be included in
    /// their next reports. Both recordings are accepted: the histograms
    /// record the full value range. The interval bookkeeping is untouched.
    pub fn record(&mut self, sample_ns: u64) -> (ok: bool)
        requires
            old(self).wf(),
        ensures
            ok,
            final(self).wf(),
            final(self).previous_submit_1_minute() == old(self).previous_submit_1_minute(),
            final(self).previous_submit_1_hour() == old(self).previous_submit_1_hour(),
            final(self).interval_1_minute() == old(self).interval_1_minute(),
            final(self).interval_1_hour() == old(self).interval_1_hour(),
    {
        let ok_minute = histogram_increment(&mut self.histogram_1_minute.histogram, sample_ns);
        let ok_hour = histogram_increment(&mut self.histogram_1_hour.histogram, sample_ns);
        ok_minute && ok_hour
    }

    /// Which of the two reports are due at `now_ns`: the pair (one-minute
    /// due, one-hour due), each exactly when its interval has elapsed since
    /// its previous submission.
    pub fn submissions_due(&self, now_ns: u64) -> (r: (bool, bool))
        ensures
            r.0 == due(now_ns, self.previous_submit_1_minute(), self.interval_1_minute()),
            r.1 == due(now_ns, self.previous_submit_1_hour(), self.interval_1_hour()),
    {
        let minute = now_ns >= self.histogram_1_minute.previous_submit_ns && now_ns
            - self.histogram_1_minute.previous_submit_ns
            >= self.histogram_1_minute.submit_interval_ns;
        let hour = now_ns >= self.histogram_1_hour.previous_submit_ns && now_ns
            - self.histogram_1_hour.previous_submit_ns >= self.histogram_1_hour.submit_interval_ns;
        (minute, hour)
    }

    /// Rolls the one-minute histogram over after its report was sent: every
    /// bucket is reset and the interval restarts at `now_ns`.
    pub fn finish_submit_1_minute(&mut self, now_ns: u64)
        requires
            old(self).wf(),
        ensures
            final(self).wf(),
            final(self).previous_submit_1_minute() == now_ns,
            final(self).previous_submit_1_hour() == old(self).previous_submit_1_hour(),
            final(self).interval_1_minute() == old(self).interval_1_minute(),
            final(self).interval_1_hour() == old(self).interval_1_hour(),
    {
        histogram_reset(&mut self.histogram_1_minute.histogram);
        self.histogram_1_minute.previous_submit_ns = now_ns;
    }

    /// Rolls the one-hour histogram over after its report was sent.
    pub fn finish_submit_1_hour(&mut self, now_ns: u64)
        requires
            old(self).wf(),
        ensures
            final(self).wf(),
            final(self).previous_submit_1_hour() == now_ns,
            final(self).previous_submit_1_minute() == old(self).previous_submit_1_minute(),
            final(self).interval_1_minute() == old(self).interval_1_minute(),
            final(self).interval_1_hour() == old(self).interval_1_hour(),
    {
        histogram_reset(&mut self.histogram_1_hour.histogram);
        self.histogram_1_hour.previous_submit_ns = now_ns;
    }

    /// The one-minute histogram, for the reporter to read percentiles from.
    pub fn minute_histogram(&self) -> &histogram::Histogram {
        &self.histogram_1_minute.histogram
    }

    /// The one-hour histogram, for the reporter to read percentiles from.
    pub fn hour_histogram(&self) -> &histogram::Histogram {
        &self.histogram_1_hour.histogram
    }

    /// The datapoint name the one-minute report is sent under.
    pub fn minute_datapoint_name(&self) -> (r: &'static str)
        requires
            self.wf(),
        ensures
            r@ == "load_accounts_histogram-1_minute"@,
    {
        self.histogram_1_minute.datapoint_name
    }

    /// The datapoint name the one-hour report is sent under.
    pub fn hour_datapoint_name(&self) -> (r: &'static str)
        requires
            self.wf(),
        ensures
            r@ == "load_accounts_histogram-1_hour"@,
    {
        self.histogram_1_hour.datapoint_name
    }
}

} // verus!
