use promtext::chars::{
    _is_valid_metric_name_continuation, is_blank_or_tab, is_valid_label_name_continuation,
    is_valid_label_name_start, is_valid_metric_name_start,
};
use promtext::format::format_families;
use promtext::model::{ErrorKind, MetricFamily, ParseError};
use promtext::names::{histogram_metric_name, is_bucket, is_count, is_sum, summary_metric_name};
use promtext::parser::TextParser;

fn parse_text(s: &str) -> Result<Vec<MetricFamily>, ParseError> {
    let mut p = TextParser::new(s.as_bytes().to_vec());
    match p.text_to_metric_families() {
        Ok(()) => Ok(p.families().clone()),
        Err(e) => Err(e),
    }
}

fn parse_bytes(b: Vec<u8>) -> Result<Vec<MetricFamily>, ParseError> {
    let mut p = TextParser::new(b);
    match p.text_to_metric_families() {
        Ok(()) => Ok(p.families().clone()),
        Err(e) => Err(e),
    }
}

#[test]
fn blank_or_tab_classifier() {
    assert!(is_blank_or_tab(b' '));
    assert!(is_blank_or_tab(b'\t'));
    assert!(!is_blank_or_tab(b'\n'));
    assert!(!is_blank_or_tab(b'a'));
}

#[test]
fn label_name_classifiers() {
    assert!(is_valid_label_name_start('a'));
    assert!(is_valid_label_name_start('Z'));
    assert!(is_valid_label_name_start('_'));
    assert!(!is_valid_label_name_start('0'));
    assert!(!is_valid_label_name_start(':'));
    assert!(is_valid_label_name_continuation('0'));
    assert!(is_valid_label_name_continuation('z'));
    assert!(!is_valid_label_name_continuation('-'));
}

#[test]
fn metric_name_classifiers() {
    assert!(is_valid_metric_name_start(':'));
    assert!(is_valid_metric_name_start('m'));
    assert!(!is_valid_metric_name_start('1'));
    assert!(_is_valid_metric_name_continuation(':'));
    assert!(_is_valid_metric_name_continuation('9'));
    assert!(!_is_valid_metric_name_continuation('{'));
}

#[test]
fn suffix_detection() {
    assert!(is_count(b"x_count"));
    assert!(!is_count(b"x_sum"));
    assert!(is_sum(b"x_sum"));
    assert!(!is_sum(b"sum"));
    assert!(is_bucket(b"x_bucket"));
    assert!(!is_bucket(b"x_count"));
}

#[test]
fn base_name_strips_one_suffix() {
    assert_eq!(summary_metric_name(b"api_count"), b"api");
    assert_eq!(summary_metric_name(b"api_sum"), b"api");
    assert_eq!(summary_metric_name(b"api_bucket"), b"api");
    assert_eq!(summary_metric_name(b"api"), b"api");
    assert_eq!(histogram_metric_name(b"h_bucket"), b"h");
    assert_eq!(histogram_metric_name(b"h_count"), b"h");
    assert_eq!(histogram_metric_name(b"plain"), b"plain");
    // Only the outermost suffix is stripped.
    assert_eq!(summary_metric_name(b"x_sum_count"), b"x_sum");
}

#[test]
fn format_then_parse_round_trips() {
    let text = "# HELP http_request_total The total number of HTTP requests.\n\
                # TYPE http_request_total counter\n\
                http_request_total{path=\"/api/v1\",method=\"POST\"} 1027\n\
                http_request_total{path=\"/api/v1\",method=\"GET\"} 4711\n\
                # HELP d Summary.\n\
                # TYPE d summary\n\
                d{quantile=\"0.5\"} 0.1\n\
                d{quantile=\"0.9\"} 0.2\n\
                d_sum 0.9\n\
                d_count 7\n\
                # TYPE h histogram\n\
                h_bucket{api=\"/w\",le=\"0.1\"} 100\n\
                h_bucket{api=\"/w\",le=\"+Inf\"} 850\n\
                h_sum{api=\"/w\"} 52.3\n\
                h_count{api=\"/w\"} 850\n\
                # TYPE g gauge\n\
                g 2.5\n\
                u 42 1699000000000\n";
    let fams = parse_text(text).expect("first parse failed");
    let formatted = format_families(&fams);
    let fams2 = parse_bytes(formatted).expect("reparse failed");
    assert_eq!(fams, fams2);
}

#[test]
fn label_values_round_trip_through_escapes() {
    // The value holds a quote, a backslash and a newline.
    let text = "# TYPE t counter\nt{k=\"a\\\"b\\\\c\\nd\"} 1\n";
    let fams = parse_text(text).expect("parse failed");
    let v = &fams[0].metrics[0].labels[0].value;
    assert_eq!(v, &vec![b'a', 0x22, b'b', 0x5c, b'c', 0x0a, b'd']);
    let formatted = format_families(&fams);
    let fams2 = parse_bytes(formatted).expect("reparse failed");
    assert_eq!(fams, fams2);
}

#[test]
fn help_round_trips_through_escapes() {
    let text = "# HELP x one\\nline and a \\\\ backslash\nx 1\n";
    let fams = parse_text(text).expect("parse failed");
    assert_eq!(fams[0].help, b"one\nline and a \\ backslash".to_vec());
    let formatted = format_families(&fams);
    let fams2 = parse_bytes(formatted).expect("reparse failed");
    assert_eq!(fams, fams2);
}

#[test]
fn unescaped_newline_in_label_value_fails() {
    let e = parse_text("t{k=\"a\nb\"} 1\n").unwrap_err();
    assert_eq!(e.kind, ErrorKind::UnescapedNewline);
    assert_eq!(e.line, 1);
}

#[test]
fn line_counter_reports_the_offending_line() {
    // The unescaped newline sits on line 2; the error names line 2 even
    // though the document holds more lines.
    let e = parse_text("ok 1\nt{k=\"a\nb\"} 1\nok2 2\n").unwrap_err();
    assert_eq!(e.kind, ErrorKind::UnescapedNewline);
    assert_eq!(e.line, 2);
}

#[test]
fn suffix_routing_count_sample() {
    let fams = parse_text("# TYPE f summary\nf_count 33\n").expect("parse failed");
    assert_eq!(fams.len(), 1);
    assert_eq!(fams[0].name, b"f".to_vec());
    assert_eq!(fams[0].metrics.len(), 1);
    match &fams[0].metrics[0].data {
        promtext::model::MetricData::Summary { sample_count, .. } => {
            assert_eq!(*sample_count, 33)
        },
        other => panic!("expected summary data, got {:?}", other),
    }
}

#[test]
fn suffixed_name_without_parent_is_its_own_family() {
    // No summary or histogram family named `f` exists, so `f_count`
    // names a family of its own.
    let fams = parse_text("f_count 33\n").expect("parse failed");
    assert_eq!(fams.len(), 1);
    assert_eq!(fams[0].name, b"f_count".to_vec());
}

#[test]
fn line_counter_getter_counts_lines() {
    let mut p = TextParser::new(b"a 1\nb 2\n".to_vec());
    p.text_to_metric_families().expect("parse failed");
    // Two sample lines and the final empty position each begin a line.
    assert_eq!(p.line_count(), 3);
}
