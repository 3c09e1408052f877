//! Verified bookkeeping for streaming sensor analytics.
//!
//! The crate holds the discrete side of a stream-analysis engine: canonical
//! tag keys and the grouping of a batch by key, the routing of timestamps
//! into tumbling, sliding and session windows, one set of windows per tag
//! key, the emit-on-slide buffer of a single sliding window, pipelines of
//! stages over a batch, and the picks by order and by index that the
//! statistics and the spectrum of a signal block need. Sample values
//! travel through it as opaque 64-bit patterns or as ordering keys; the
//! arithmetic on them belongs to the caller.

pub mod config;
pub mod digest;
pub mod dimension;
pub mod error;
pub mod grouping;
pub mod multidim;
pub mod order;
pub mod pipeline;
pub mod spectrum;
pub mod stream;
pub mod tally;
pub mod window;

pub use config::{AggregationType, WindowConfig, WindowType};
pub use dimension::DimensionKey;
pub use error::{AggregatorError, SignalError};
pub use multidim::{DataPoint, MultiDimensionAggregator};
pub use order::DataQuality;
pub use pipeline::{AggregateOp, AggregationPipeline};
pub use stream::{StreamAggregator, StreamStep};
pub use tally::Tally;
pub use window::{Admission, Sample, TimeWindowAggregator, WindowBatch, WindowStamp};
