use promtext::model::{ErrorKind, MetricData, MetricFamily, MetricType, ParseError};
use promtext::parser::TextParser;

fn parse_text(s: &str) -> Result<Vec<MetricFamily>, ParseError> {
    let mut p = TextParser::new(s.as_bytes().to_vec());
    match p.text_to_metric_families() {
        Ok(()) => Ok(p.families().clone()),
        Err(e) => Err(e),
    }
}

fn find<'a>(fams: &'a [MetricFamily], name: &str) -> &'a MetricFamily {
    fams.iter()
        .find(|f| f.name == name.as_bytes().to_vec())
        .expect("family not found")
}

#[test]
fn test_count_parse() {
    let text = r#"
# HELP some_other_counter Some counter.
# TYPE some_other_counter counter
some_other_counter{path="/api/v1",method="POST"} 1027
some_other_counter{path="/api/v1",method="GET"} 4711
"#;
    let fams = parse_text(text).expect("parse failed");
    assert_eq!(fams.len(), 1);
    let f = find(&fams, "some_other_counter");
    assert_eq!(f.metric_type, MetricType::Counter);
    assert_eq!(f.help, b"Some counter.".to_vec());
    assert_eq!(f.metrics.len(), 2);
    match &f.metrics[0].data {
        MetricData::Counter { value } => assert_eq!(value.text, b"1027".to_vec()),
        other => panic!("expected counter data, got {:?}", other),
    }
    match &f.metrics[1].data {
        MetricData::Counter { value } => assert_eq!(value.text, b"4711".to_vec()),
        other => panic!("expected counter data, got {:?}", other),
    }
}

#[test]
fn test_go_runtime_metrics() {
    let text = r#"
go_cgo_go_to_c_calls_calls_total 8447
go_gc_cycles_automatic_gc_cycles_total 10
go_gc_cycles_forced_gc_cycles_total 0
go_gc_cycles_total_gc_cycles_total 10
go_gc_duration_seconds{quantile="0"} 3.4709e-05
go_gc_duration_seconds{quantile="0.25"} 3.9917e-05
go_gc_duration_seconds{quantile="0.5"} 0.000138459
go_gc_duration_seconds{quantile="0.75"} 0.000211333
go_gc_duration_seconds{quantile="1"} 0.000693833
go_gc_duration_seconds_sum 0.001920708
go_gc_duration_seconds_count 10
go_gc_heap_allocs_by_size_bytes_bucket{le="8.999999999999998"} 16889
go_gc_heap_allocs_by_size_bytes_bucket{le="24.999999999999996"} 221293
go_gc_heap_allocs_by_size_bytes_bucket{le="64.99999999999999"} 365672
go_gc_heap_allocs_by_size_bytes_bucket{le="144.99999999999997"} 475633
go_gc_heap_allocs_by_size_bytes_bucket{le="320.99999999999994"} 507361
go_gc_heap_allocs_by_size_bytes_bucket{le="704.9999999999999"} 516511
go_gc_heap_allocs_by_size_bytes_bucket{le="1536.9999999999998"} 521176
go_gc_heap_allocs_by_size_bytes_bucket{le="3200.9999999999995"} 522802
go_gc_heap_allocs_by_size_bytes_bucket{le="6528.999999999999"} 524529
go_gc_heap_allocs_by_size_bytes_bucket{le="13568.999999999998"} 525164
go_gc_heap_allocs_by_size_bytes_bucket{le="27264.999999999996"} 525269
go_gc_heap_allocs_by_size_bytes_bucket{le="+Inf"} 525421
go_gc_heap_allocs_by_size_bytes_sum 7.2408264e+07
go_gc_heap_allocs_by_size_bytes_count 525421
go_gc_heap_allocs_bytes_total 7.2408264e+07
go_gc_heap_allocs_objects_total 525421
go_gc_heap_frees_by_size_bytes_bucket{le="8.999999999999998"} 11081
go_gc_heap_frees_by_size_bytes_bucket{le="24.999999999999996"} 168291
go_gc_heap_frees_by_size_bytes_bucket{le="64.99999999999999"} 271749
go_gc_heap_frees_by_size_bytes_bucket{le="144.99999999999997"} 352424
go_gc_heap_frees_by_size_bytes_bucket{le="320.99999999999994"} 378481
go_gc_heap_frees_by_size_bytes_bucket{le="704.9999999999999"} 385700
go_gc_heap_frees_by_size_bytes_bucket{le="1536.9999999999998"} 389443
go_gc_heap_frees_by_size_bytes_bucket{le="3200.9999999999995"} 390591
go_gc_heap_frees_by_size_bytes_bucket{le="6528.999999999999"} 392069
go_gc_heap_frees_by_size_bytes_bucket{le="13568.999999999998"} 392565
go_gc_heap_frees_by_size_bytes_bucket{le="27264.999999999996"} 392636
go_gc_heap_frees_by_size_bytes_bucket{le="+Inf"} 392747
go_gc_heap_frees_by_size_bytes_sum 5.3304296e+07
go_gc_heap_frees_by_size_bytes_count 392747
go_gc_heap_frees_bytes_total 5.3304296e+07
go_gc_heap_frees_objects_total 392747
go_gc_heap_goal_bytes 3.6016864e+07
go_gc_heap_objects_objects 132674
go_gc_heap_tiny_allocs_objects_total 36033
go_gc_limiter_last_enabled_gc_cycle 0
go_gc_pauses_seconds_bucket{le="9.999999999999999e-10"} 0
go_gc_pauses_seconds_bucket{le="9.999999999999999e-09"} 0
go_gc_pauses_seconds_bucket{le="9.999999999999998e-08"} 0
go_gc_pauses_seconds_bucket{le="1.0239999999999999e-06"} 0
go_gc_pauses_seconds_bucket{le="1.0239999999999999e-05"} 1
go_gc_pauses_seconds_bucket{le="0.00010239999999999998"} 15
go_gc_pauses_seconds_bucket{le="0.0010485759999999998"} 20
go_gc_pauses_seconds_bucket{le="0.010485759999999998"} 20
go_gc_pauses_seconds_bucket{le="0.10485759999999998"} 20
go_gc_pauses_seconds_bucket{le="+Inf"} 20
go_gc_pauses_seconds_sum 0.000656384
go_gc_pauses_seconds_count 20
go_gc_stack_starting_size_bytes 4096
go_goroutines 102
go_info{version="go1.19.5"} 1
go_memory_classes_heap_free_bytes 8.839168e+06
go_memory_classes_heap_objects_bytes 1.9103968e+07
go_memory_classes_heap_released_bytes 3.530752e+06
go_memory_classes_heap_stacks_bytes 2.4576e+06
go_memory_classes_heap_unused_bytes 8.011552e+06
go_memory_classes_metadata_mcache_free_bytes 3600
go_memory_classes_metadata_mcache_inuse_bytes 12000
go_memory_classes_metadata_mspan_free_bytes 77472
go_memory_classes_metadata_mspan_inuse_bytes 426960
go_memory_classes_metadata_other_bytes 6.201928e+06
go_memory_classes_os_stacks_bytes 0
go_memory_classes_other_bytes 1.931459e+06
go_memory_classes_profiling_buckets_bytes 1.489565e+06
go_memory_classes_total_bytes 5.2086024e+07
go_memstats_alloc_bytes 1.9103968e+07
go_memstats_alloc_bytes_total 7.2408264e+07
go_memstats_buck_hash_sys_bytes 1.489565e+06
go_memstats_frees_total 428780
go_memstats_gc_sys_bytes 6.201928e+06
go_memstats_heap_alloc_bytes 1.9103968e+07
go_memstats_heap_idle_bytes 1.236992e+07
go_memstats_heap_inuse_bytes 2.711552e+07
go_memstats_heap_objects 132674
go_memstats_heap_released_bytes 3.530752e+06
go_memstats_heap_sys_bytes 3.948544e+07
go_memstats_last_gc_time_seconds 1.6992580814748092e+09
go_memstats_lookups_total 0
go_memstats_mallocs_total 561454
go_memstats_mcache_inuse_bytes 12000
go_memstats_mcache_sys_bytes 15600
go_memstats_mspan_inuse_bytes 426960
go_memstats_mspan_sys_bytes 504432
go_memstats_next_gc_bytes 3.6016864e+07
go_memstats_other_sys_bytes 1.931459e+06
go_memstats_stack_inuse_bytes 2.4576e+06
go_memstats_stack_sys_bytes 2.4576e+06
go_memstats_sys_bytes 5.2086024e+07
go_sched_gomaxprocs_threads 10
go_sched_goroutines_goroutines 102
go_sched_latencies_seconds_bucket{le="9.999999999999999e-10"} 4886
go_sched_latencies_seconds_bucket{le="9.999999999999999e-09"} 4886
go_sched_latencies_seconds_bucket{le="9.999999999999998e-08"} 5883
go_sched_latencies_seconds_bucket{le="1.0239999999999999e-06"} 6669
go_sched_latencies_seconds_bucket{le="1.0239999999999999e-05"} 7191
go_sched_latencies_seconds_bucket{le="0.00010239999999999998"} 7531
go_sched_latencies_seconds_bucket{le="0.0010485759999999998"} 7567
go_sched_latencies_seconds_bucket{le="0.010485759999999998"} 7569
go_sched_latencies_seconds_bucket{le="0.10485759999999998"} 7569
go_sched_latencies_seconds_bucket{le="+Inf"} 7569
go_sched_latencies_seconds_sum 0.00988825
go_sched_latencies_seconds_count 7569
go_threads 16
"#;
    let fams = parse_text(text).expect("parse failed");
    // Every family is untyped: the exposition carries no TYPE lines, so
    // quantile and le stay ordinary labels and no samples are merged.
    let dur = find(&fams, "go_gc_duration_seconds");
    assert_eq!(dur.metric_type, MetricType::Untyped);
    assert_eq!(dur.metrics.len(), 5);
    assert_eq!(dur.metrics[0].labels.len(), 1);
    assert_eq!(dur.metrics[0].labels[0].name, b"quantile".to_vec());
    assert_eq!(dur.metrics[0].labels[0].value, b"0".to_vec());
    let dur_sum = find(&fams, "go_gc_duration_seconds_sum");
    match &dur_sum.metrics[0].data {
        MetricData::Untyped { value } => assert_eq!(value.text, b"0.001920708".to_vec()),
        other => panic!("expected untyped data, got {:?}", other),
    }
    let allocs = find(&fams, "go_gc_heap_allocs_by_size_bytes_bucket");
    assert_eq!(allocs.metrics.len(), 12);
    let info = find(&fams, "go_info");
    assert_eq!(info.metrics[0].labels[0].value, b"go1.19.5".to_vec());
}

#[test]
fn test_basic_parse() {
    let text = r#"
# HELP http2_request_duration_seconds Histogram of HTTP request latencies in seconds.
# TYPE http2_request_duration_seconds histogram
http2_request_duration_seconds_bucket{api="/v1/write", le="0.1"} 100
http2_request_duration_seconds_bucket{api="/v1/write", le="0.2"} 250
http2_request_duration_seconds_bucket{api="/v1/write", le="0.5"} 500
http2_request_duration_seconds_bucket{api="/v1/write", le="1.0"} 700
http2_request_duration_seconds_bucket{api="/v1/write", le="+Inf"} 850
http2_request_duration_seconds_sum{api="/v1/write"} 52.3
http2_request_duration_seconds_count{api="/v1/write"} 850
# HELP some_counter Some counter.
# TYPE some_counter counter
some_counter{path="/api/v1",method="POST"} 1027
some_counter{path="/api/v1",method="GET"} 4711
# HELP some_gauge Some gauge.
# TYPE some_gauge gauge
some_gauge{path="/api/v1",method="POST"} 1028
some_gauge{path="/api/v1",method="GET"} 4712
# HELP api_latency_seconds HTTP request latency partitioned by HTTP API and HTTP status
# TYPE api_latency_seconds summary
api_latency_seconds{method="GET",api="/v1/pull",status="url-error",quantile="0.5"} 0.000952746
api_latency_seconds{method="GET",api="/v1/pull",status="url-error",quantile="0.9"} 0.00546789
api_latency_seconds{method="GET",api="/v1/pull",status="url-error",quantile="0.99"} 0.009414857
api_latency_seconds_sum{method="GET",api="/v1/pull",status="url-error"} 0.1711532899999999
api_latency_seconds_count{method="GET",api="/v1/pull",status="url-error"} 104
api_latency_seconds{api="/v2/usage_trace",status="url-error",quantile="0.5"} 0.000855108
api_latency_seconds{api="/v1/usage_trace",status="url-error",quantile="0.9"} 0.001084062
api_latency_seconds{api="/v1/usage_trace",status="url-error",quantile="0.99"} 0.001084062
api_latency_seconds_sum{api="/v1/usage_trace",status="url-error"} 0.0032156570000000002
api_latency_seconds_count{api="/v1/usage_trace",status="url-error"} 4
api_latency_seconds{api="/v1/drop",status="url-error",quantile="0.5"} 0.000979155
api_latency_seconds{api="/v1/drop",status="url-error",quantile="0.9"} 0.006829465
"#;
    let fams = parse_text(text).expect("parse failed");
    assert_eq!(fams.len(), 4);
    // The `_bucket`/`_sum`/`_count` samples merge into the histogram
    // family; no family of those names exists.
    assert!(fams
        .iter()
        .all(|f| f.name != b"http2_request_duration_seconds_sum".to_vec()));
    let h = find(&fams, "http2_request_duration_seconds");
    assert_eq!(h.metric_type, MetricType::Histogram);
    assert_eq!(h.metrics.len(), 1);
    match &h.metrics[0].data {
        MetricData::Histogram { sample_count, sample_sum, buckets } => {
            assert_eq!(*sample_count, 850);
            assert_eq!(sample_sum.text, b"52.3".to_vec());
            assert_eq!(buckets.len(), 5);
            assert_eq!(buckets[0].upper_bound.text, b"0.1".to_vec());
            assert_eq!(buckets[0].cumulative_count, 100);
            assert_eq!(buckets[4].upper_bound.text, b"+Inf".to_vec());
            assert_eq!(buckets[4].cumulative_count, 850);
        },
        other => panic!("expected histogram data, got {:?}", other),
    }
    let s = find(&fams, "api_latency_seconds");
    assert_eq!(s.metric_type, MetricType::Summary);
    // Samples group by their non-reserved label sets: four groups.
    assert_eq!(s.metrics.len(), 4);
    match &s.metrics[0].data {
        MetricData::Summary { sample_count, sample_sum, quantiles } => {
            assert_eq!(*sample_count, 104);
            assert_eq!(sample_sum.text, b"0.1711532899999999".to_vec());
            assert_eq!(quantiles.len(), 3);
        },
        other => panic!("expected summary data, got {:?}", other),
    }
}

#[test]
fn counter_with_labels() {
    let text = "# HELP http_request_total The total number of HTTP requests.\n\
                # TYPE http_request_total counter\n\
                http_request_total{path=\"/api/v1\",method=\"POST\"} 1027\n\
                http_request_total{path=\"/api/v1\",method=\"GET\"} 4711\n";
    let fams = parse_text(text).expect("parse failed");
    assert_eq!(fams.len(), 1);
    let f = &fams[0];
    assert_eq!(f.name, b"http_request_total".to_vec());
    assert_eq!(f.help, b"The total number of HTTP requests.".to_vec());
    assert_eq!(f.metric_type, MetricType::Counter);
    assert_eq!(f.metrics.len(), 2);
    let m0 = &f.metrics[0];
    assert_eq!(m0.labels.len(), 2);
    assert_eq!(m0.labels[0].name, b"path".to_vec());
    assert_eq!(m0.labels[0].value, b"/api/v1".to_vec());
    assert_eq!(m0.labels[1].name, b"method".to_vec());
    assert_eq!(m0.labels[1].value, b"POST".to_vec());
    match &m0.data {
        MetricData::Counter { value } => assert_eq!(value.text, b"1027".to_vec()),
        other => panic!("expected counter data, got {:?}", other),
    }
    match &f.metrics[1].data {
        MetricData::Counter { value } => assert_eq!(value.text, b"4711".to_vec()),
        other => panic!("expected counter data, got {:?}", other),
    }
}

#[test]
fn summary_scenario() {
    let text = "# HELP d Summary.\n\
                # TYPE d summary\n\
                d{quantile=\"0.5\"} 0.1\n\
                d{quantile=\"0.9\"} 0.2\n\
                d_sum 0.9\n\
                d_count 7\n";
    let fams = parse_text(text).expect("parse failed");
    assert_eq!(fams.len(), 1);
    let f = &fams[0];
    assert_eq!(f.name, b"d".to_vec());
    assert_eq!(f.metric_type, MetricType::Summary);
    assert_eq!(f.metrics.len(), 1);
    let m = &f.metrics[0];
    assert_eq!(m.labels.len(), 0);
    match &m.data {
        MetricData::Summary { sample_count, sample_sum, quantiles } => {
            assert_eq!(*sample_count, 7);
            assert_eq!(sample_sum.text, b"0.9".to_vec());
            assert_eq!(quantiles.len(), 2);
            assert_eq!(quantiles[0].quantile.text, b"0.5".to_vec());
            assert_eq!(quantiles[0].value.text, b"0.1".to_vec());
            assert_eq!(quantiles[1].quantile.text, b"0.9".to_vec());
            assert_eq!(quantiles[1].value.text, b"0.2".to_vec());
        },
        other => panic!("expected summary data, got {:?}", other),
    }
}

#[test]
fn histogram_grouped_by_labels() {
    let text = "# TYPE h histogram\n\
                h_bucket{api=\"/w\",le=\"0.1\"} 100\n\
                h_bucket{api=\"/w\",le=\"+Inf\"} 850\n\
                h_sum{api=\"/w\"} 52.3\n\
                h_count{api=\"/w\"} 850\n";
    let fams = parse_text(text).expect("parse failed");
    assert_eq!(fams.len(), 1);
    let f = &fams[0];
    assert_eq!(f.name, b"h".to_vec());
    assert_eq!(f.metric_type, MetricType::Histogram);
    assert_eq!(f.metrics.len(), 1);
    let m = &f.metrics[0];
    assert_eq!(m.labels.len(), 1);
    assert_eq!(m.labels[0].name, b"api".to_vec());
    assert_eq!(m.labels[0].value, b"/w".to_vec());
    match &m.data {
        MetricData::Histogram { sample_count, sample_sum, buckets } => {
            assert_eq!(*sample_count, 850);
            assert_eq!(sample_sum.text, b"52.3".to_vec());
            assert_eq!(buckets.len(), 2);
            assert_eq!(buckets[0].upper_bound.text, b"0.1".to_vec());
            assert_eq!(buckets[0].cumulative_count, 100);
            assert_eq!(buckets[1].upper_bound.text, b"+Inf".to_vec());
            assert_eq!(buckets[1].cumulative_count, 850);
        },
        other => panic!("expected histogram data, got {:?}", other),
    }
}

#[test]
fn reserved_label() {
    let e = parse_text("foo{__name__=\"bar\"} 1\n").unwrap_err();
    assert_eq!(e.kind, ErrorKind::ReservedLabelName);
    assert_eq!(e.line, 1);
}

#[test]
fn bad_escape_in_label_value() {
    let e = parse_text(r#"foo{k="a\q"} 1
"#)
        .unwrap_err();
    assert_eq!(e.kind, ErrorKind::InvalidEscape);
    assert_eq!(e.line, 1);
}

#[test]
fn duplicate_help() {
    let e = parse_text("# HELP x one\n# HELP x two\nx 1\n").unwrap_err();
    assert_eq!(e.kind, ErrorKind::DuplicateHelp);
    assert_eq!(e.line, 2);
}

#[test]
fn empty_input_yields_no_families() {
    let fams = parse_text("").expect("parse failed");
    assert_eq!(fams.len(), 0);
    let fams2 = parse_text("\n  \n# a comment line\n").expect("parse failed");
    assert_eq!(fams2.len(), 0);
}

#[test]
fn error_line_number_counts_lines() {
    let e = parse_text("a 1\nb 2\nc x\n").unwrap_err();
    assert_eq!(e.kind, ErrorKind::InvalidFloat);
    assert_eq!(e.line, 3);
}

#[test]
fn whitespace_between_tokens_is_irrelevant() {
    let canonical = "# TYPE t counter\nt{a=\"x\"} 5\n";
    let spaced = "#  \t TYPE  t \t counter\n  t{ a = \"x\" }  5  \n";
    let a = parse_text(canonical).expect("parse failed");
    let b = parse_text(spaced).expect("parse failed");
    assert_eq!(a, b);
}

#[test]
fn errors_for_each_kind() {
    assert_eq!(
        parse_text("{a=\"b\"} 1\n").unwrap_err().kind,
        ErrorKind::InvalidMetricName
    );
    assert_eq!(
        parse_text("# HELP {\n").unwrap_err().kind,
        ErrorKind::InvalidMetricName
    );
    assert_eq!(
        parse_text("m{=\"v\"} 1\n").unwrap_err().kind,
        ErrorKind::InvalidLabelName
    );
    assert_eq!(
        parse_text("m{a \"v\"} 1\n").unwrap_err().kind,
        ErrorKind::MissingEquals
    );
    assert_eq!(
        parse_text("m{a=v} 1\n").unwrap_err().kind,
        ErrorKind::MissingOpenQuote
    );
    assert_eq!(
        parse_text("m{a=\"v").unwrap_err().kind,
        ErrorKind::UnterminatedLabelValue
    );
    assert_eq!(
        parse_text("m{a=\"v\" x\"} 1\n").unwrap_err().kind,
        ErrorKind::UnterminatedLabelValue
    );
    assert_eq!(
        parse_text("m{a=\"v\nw\"} 1\n").unwrap_err().kind,
        ErrorKind::UnescapedNewline
    );
    assert_eq!(parse_text("m x\n").unwrap_err().kind, ErrorKind::InvalidFloat);
    assert_eq!(
        parse_text("m 1 abc\n").unwrap_err().kind,
        ErrorKind::InvalidInteger
    );
}

#[test]
fn timestamps_attach_to_the_metric() {
    let fams = parse_text("m 1 1234\n").expect("parse failed");
    assert_eq!(fams[0].metrics[0].timestamp_ms, Some(1234));
    let fams2 = parse_text("m 1 -5\n").expect("parse failed");
    assert_eq!(fams2[0].metrics[0].timestamp_ms, Some(-5));
    let fams3 = parse_text("m 1\n").expect("parse failed");
    assert_eq!(fams3[0].metrics[0].timestamp_ms, None);
    // Too large for a signed 64-bit integer.
    let e = parse_text("m 1 99999999999999999999\n").unwrap_err();
    assert_eq!(e.kind, ErrorKind::InvalidInteger);
}

#[test]
fn quantile_value_must_be_a_float() {
    let e = parse_text("# TYPE d summary\nd{quantile=\"abc\"} 1\n").unwrap_err();
    assert_eq!(e.kind, ErrorKind::InvalidFloat);
    assert_eq!(e.line, 2);
    let e2 = parse_text("# TYPE h histogram\nh_bucket{le=\"x\"} 1\n").unwrap_err();
    assert_eq!(e2.kind, ErrorKind::InvalidFloat);
}

#[test]
fn unknown_type_token_reads_as_untyped() {
    let fams = parse_text("# TYPE t widget\nt 5\n").expect("parse failed");
    assert_eq!(fams[0].metric_type, MetricType::Untyped);
    match &fams[0].metrics[0].data {
        MetricData::Untyped { value } => assert_eq!(value.text, b"5".to_vec()),
        other => panic!("expected untyped data, got {:?}", other),
    }
}

#[test]
fn help_escapes_decode() {
    let fams = parse_text("# HELP x a\\nb\\\\c\nx 1\n").expect("parse failed");
    assert_eq!(fams[0].help, b"a\nb\\c".to_vec());
}

#[test]
fn counts_truncate_like_float_casts() {
    let prefix = "# TYPE d summary\n";
    let count_of = |v: &str| -> u64 {
        let fams = parse_text(&format!("{}d_count {}\n", prefix, v)).expect("parse failed");
        match &fams[0].metrics[0].data {
            MetricData::Summary { sample_count, .. } => *sample_count,
            other => panic!("expected summary data, got {:?}", other),
        }
    };
    assert_eq!(count_of("7"), 7);
    assert_eq!(count_of("8.5e2"), 850);
    assert_eq!(count_of("0.9"), 0);
    assert_eq!(count_of("NaN"), 0);
    assert_eq!(count_of("-3"), 0);
    assert_eq!(count_of("+Inf"), u64::MAX);
    assert_eq!(count_of("1e300"), u64::MAX);
    assert_eq!(count_of("18446744073709551615"), u64::MAX);
    assert_eq!(count_of("18446744073709551616"), u64::MAX);
    assert_eq!(count_of("1e-5"), 0);
    assert_eq!(count_of("123.456e1"), 1234);
}
