//! Event field paths: a structured address into nested event data.
//!
//! A path such as `foo.bar[0]` or `"foo.bar".baz` is parsed into an ordered
//! sequence of segments (named fields and signed indices), can be rendered
//! back into its canonical textual form, and travels over the wire as exactly
//! that canonical string.

pub mod codec;
pub mod events;
pub mod lookup;
pub mod parse;
pub mod render;
pub mod roundtrip;
pub mod segment;

pub use events::MetricKind;
pub use events::MetricValueKind;
pub use events::StatsdInvalidMetricReceived;
pub use lookup::Lookup;
pub use parse::ParseError;
pub use parse::ParseErrorKind;
pub use segment::FieldBuf;
pub use segment::Segment;
pub use segment::SegView;
