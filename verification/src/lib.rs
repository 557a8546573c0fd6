//! Market-data ingestion core: arbitration of two redundant sequenced feeds,
//! venue decoders, per-instrument order-by-order books and the framing of
//! normalized events for downstream clients.
pub mod parser;
pub mod wire;

pub mod pool;
pub mod metrics;
pub mod spsc;
pub mod merge;
pub mod decoder_eobi;
pub mod decoder_fast;
pub mod table;
pub mod decoder_itch;
pub mod level;
pub mod grid;
pub mod side;
pub mod shape;
pub mod instrument;
pub mod orderbook;
pub mod export;
pub mod codec_raw;
pub mod obo;
pub mod util;
pub mod snapfeed;
pub mod snapshot;
pub mod recovery;
pub mod pubsub;
pub mod text;
pub mod config;
pub mod rx;
pub mod decode;
pub mod roundtrip;
pub mod query;
pub mod determinism;
