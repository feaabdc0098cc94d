use event_path::MetricKind;
use event_path::MetricValueKind;
use event_path::StatsdInvalidMetricReceived;

#[test]
fn invalid_metric_report_content() {
    let ev = StatsdInvalidMetricReceived {
        value_kind: MetricValueKind::Distribution,
        kind: MetricKind::Incremental,
    };
    assert_eq!(ev.log_message(), "Invalid metric received; dropping event.");
    assert_eq!(ev.rate_limit_secs(), 30);
    assert_eq!(ev.counter_name(), "processing_errors");
    assert_eq!(ev.counter_increment(), 1);
    assert_eq!(ev.value_kind_label(), "distribution");
    assert_eq!(ev.kind_label(), "incremental");
}

#[test]
fn invalid_metric_counter_labels() {
    let ev = StatsdInvalidMetricReceived {
        value_kind: MetricValueKind::SampleSet,
        kind: MetricKind::Absolute,
    };
    let labels = ev.counter_labels();
    assert_eq!(labels.len(), 3);
    assert_eq!(labels[0], ("component_kind".to_string(), "sink".to_string()));
    assert_eq!(labels[1], ("component_type".to_string(), "statsd".to_string()));
    assert_eq!(labels[2], ("error_type".to_string(), "invalid_metric".to_string()));
    assert_eq!(ev.value_kind_label(), "set");
    assert_eq!(ev.kind_label(), "absolute");
}
