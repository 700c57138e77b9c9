//! A streaming parser for the Prometheus text exposition format.
//!
//! A byte-oriented input is consumed one byte at a time and turned into a
//! set of typed metric families (counter, gauge, summary, histogram,
//! untyped), each carrying an optional help string and a sequence of
//! labeled metrics. Summaries and histograms aggregate `_sum`, `_count`
//! and bucket/quantile sample lines into one metric record per
//! non-reserved label set.
//!
//! Floating-point sample values are carried as their validated literal
//! tokens (see `float_text`), so that the parser stays within integer
//! code; sample counts are derived from the literal by exact decimal
//! truncation (see `num`). The automaton itself is specified in
//! `machine`, executed in `parser`, written back by `format`, and its
//! stated laws live in `laws` and `roundtrip`.

pub mod chars;
pub mod float_text;
pub mod format;
pub mod laws;
pub mod machine;
pub mod model;
pub mod names;
pub mod num;
pub mod parser;
pub mod roundtrip;
pub mod scan;
