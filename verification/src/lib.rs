//! A sans-io fold engine for ordered chain events.
pub mod batch;
pub mod batch_laws;
pub mod bytes;
pub mod chain_laws;
pub mod chain_model;
pub mod checkpoint;
pub mod checksum;
pub mod delay;
pub mod digit_laws;
pub mod driver;
pub mod driver_laws;
pub mod driver_model;
pub mod engine;
pub mod engine_laws;
pub mod engine_model;
pub mod error;
pub mod fold;
pub mod harness;
pub mod keystem;
pub mod mayo;
pub mod position;
pub mod recovery_laws;
pub mod retention_laws;
pub mod ring;
pub mod rotortree;
pub mod scan_laws;
pub mod sink;
pub mod sink_laws;
pub mod snapshot;
pub mod snapshot_laws;
pub mod snapshot_model;
pub mod source;
pub mod storage;
pub mod text;

pub use batch::{Batch, BatchShapeError, SpanView, Spans};
pub use delay::Delay;
pub use driver::{Driver, DriverConfig, DriverStatus, Tick};
pub use engine::{ApplySummary, Engine, EngineConfig};
pub use error::{
    ApplyError, ConfigError, DivergenceCause, DurabilityLost, EngineStatus, FoldError,
    RollbackError,
};
pub use fold::Fold;
pub use position::{BlockRef, Position};
pub use ring::{BlockRing, Observed};
pub use sink::{NoSink, SnapshotSink};
pub use snapshot::{Persist, SnapshotError};
pub use snapshot_model::{SNAPSHOT_MAGIC, SNAPSHOT_VERSION};
pub use source::{ReplayHorizon, Source};
pub use text::Describe;
