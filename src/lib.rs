//! Incremental mining of log templates: lines are split into tokens, grouped
//! by length and first-token signature, and matched against the templates of
//! their group, which lose literal tokens to a wildcard as variants appear.
//! The whole engine saves to, and loads from, a tagged little-endian snapshot.

mod cluster;
mod parser;
mod signature;
mod snapshot;
mod tokenize;

pub use cluster::{simseq, DrainParseOutput, LogCluster, Template};
pub use parser::{DrainParser, LengthGroup, SignatureCluster};
pub use signature::{is_float, signature};
pub use snapshot::{
    LoadError, BEGIN_CLUSTER_GROUP, BEGIN_EVENT_GROUP, BEGIN_TEMPLATE, CURR_DRAIN_MODEL_VERSION,
    DRAIN_MAGIC, END_CLUSTER_GROUP, END_EVENT_GROUP, END_TEMPLATE,
};
pub use tokenize::{is_delimiter, tokenize};
