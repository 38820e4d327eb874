//! A Kademlia-style distributed hash table with adaptive tiering and backpressure.
//!
//! The crate holds the logic of a node and leaves input, output and the clock to whoever
//! drives it:
//!
//! - [`hash`], [`distance`]: identifiers, content hashing and the XOR metric
//! - [`contact`], [`routing`]: peers and the routing table
//! - [`kmeans`], [`tiering`]: latency tiers of peers
//! - [`lru_cache`], [`pressure`], [`store`]: the local store and its backpressure
//! - [`adaptive`]: the bucket size, adapted to churn
//! - [`node`]: the state of a node
//! - [`lookup`], [`replication`]: iterative lookups, and passing values on
//! - [`protocol`], [`framing`]: messages between nodes, and frames on a stream
//! - [`order`], [`id_set`]: what the others need of sorting and of sets

pub mod adaptive;
pub mod contact;
pub mod distance;
pub mod framing;
pub mod hash;
pub mod id_set;
pub mod kmeans;
pub mod lookup;
pub mod lru_cache;
pub mod node;
pub mod order;
pub mod pressure;
pub mod protocol;
pub mod replication;
pub mod routing;
pub mod store;
pub mod tiering;

pub use adaptive::{ALPHA_DEFAULT, K_DEFAULT};
pub use contact::Contact;
pub use distance::{bucket_index, distance_cmp, xor_distance};
pub use hash::{derive_node_id, hash_content, verify_key_value_pair, Key, NodeId};
pub use lookup::{NodeLookup, Retrieval, ValueLookup};
pub use node::{DhtNode, TelemetrySnapshot};
pub use replication::{Request, Upload};
pub use routing::{PendingBucketUpdate, RoutingTable};
pub use tiering::{TieringLevel, TieringStats};
