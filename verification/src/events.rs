//! The invalid-metric report: what a sink says when it drops a metric it
//! cannot represent.
//!
//! Reporting is fire-and-forget and dual: a rate-limited structured log
//! line, and a counter tagged with component kind, component type and an
//! error label. This module fixes the content of both; actually emitting
//! them is left to the surrounding process, so that the data model stays
//! free of any reporting subsystem.

use vstd::prelude::*;

verus! {

/// Whether a metric carries an increment or an absolute value.
#[derive(Clone, Copy, Debug, PartialEq, Eq, Structural)]
pub enum MetricKind {
    Incremental,
    Absolute,
}

/// The shape of a metric's value, as far as the report reads it.
#[derive(Clone, Copy, Debug, PartialEq, Eq, Structural)]
pub enum MetricValueKind {
    Counter,
    Gauge,
    SampleSet,
    Distribution,
    AggregatedHistogram,
    AggregatedSummary,
}

/// A metric reached the statsd sink that the statsd line protocol cannot
/// express; the event is dropped and this report describes the drop.
#[derive(Clone, Copy, Debug, PartialEq, Eq, Structural)]
pub struct StatsdInvalidMetricReceived {
    pub value_kind: MetricValueKind,
    pub kind: MetricKind,
}

impl StatsdInvalidMetricReceived {
    /// The message of the log line.
    pub fn log_message(&self) -> (r: String)
        ensures
            r@ == "Invalid metric received; dropping event."@,
    {
        String::from_str("Invalid metric received; dropping event.")
    }

    /// How often, at most, the log line should be written, in seconds.
    pub fn rate_limit_secs(&self) -> (r: u64)
        ensures
            r == 30,
    {
        30
    }

    /// A short label for the metric's value shape, for the log line.
    pub fn value_kind_label(&self) -> (r: String)
        ensures
            self.value_kind is Counter ==> r@ == "counter"@,
            self.value_kind is Gauge ==> r@ == "gauge"@,
            self.value_kind is SampleSet ==> r@ == "set"@,
            self.value_kind is Distribution ==> r@ == "distribution"@,
            self.value_kind is AggregatedHistogram ==> r@ == "aggregated_histogram"@,
            self.value_kind is AggregatedSummary ==> r@ == "aggregated_summary"@,
    {
        match self.value_kind {
            MetricValueKind::Counter => String::from_str("counter"),
            MetricValueKind::Gauge => String::from_str("gauge"),
            MetricValueKind::SampleSet => String::from_str("set"),
            MetricValueKind::Distribution => String::from_str("distribution"),
            MetricValueKind::AggregatedHistogram => String::from_str("aggregated_histogram"),
            MetricValueKind::AggregatedSummary => String::from_str("aggregated_summary"),
        }
    }

    /// A short label for the metric's kind, for the log line.
    pub fn kind_label(&self) -> (r: String)
        ensures
            self.kind is Incremental ==> r@ == "incremental"@,
            self.kind is Absolute ==> r@ == "absolute"@,
    {
        match self.kind {
            MetricKind::Incremental => String::from_str("incremental"),
            MetricKind::Absolute => String::from_str("absolute"),
        }
    }

    /// The counter to increment.
    pub fn counter_name(&self) -> (r: String)
        ensures
            r@ == "processing_errors"@,
    {
        String::from_str("processing_errors")
    }

    /// By how much to increment it.
    pub fn counter_increment(&self) -> (r: u64)
        ensures
            r == 1,
    {
        1
    }

    /// The labels on the counter: component kind, component type and the
    /// error label, in that order.
    pub fn counter_labels(&self) -> (r: Vec<(String, String)>)
        ensures
            r@.len() == 3,
            r@[0].0@ == "component_kind"@ && r@[0].1@ == "sink"@,
            r@[1].0@ == "component_type"@ && r@[1].1@ == "statsd"@,
            r@[2].0@ == "error_type"@ && r@[2].1@ == "invalid_metric"@,
    {
        let mut r: Vec<(String, String)> = Vec::new();
        r.push((String::from_str("component_kind"), String::from_str("sink")));
        r.push((String::from_str("component_type"), String::from_str("statsd")));
        r.push((String::from_str("error_type"), String::from_str("invalid_metric")));
        r
    }
}

} // verus!
