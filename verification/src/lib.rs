//! Verified core of a distributed ranked-match crawler.

pub mod api;
pub mod api_key;
pub mod api_laws;
pub mod archive_laws;
pub mod broker;
pub mod broker_laws;
pub mod codec;
pub mod column_laws;
pub mod columnar;
pub mod columnar_encode;
pub mod columnar_laws;
pub mod config;
pub mod count_laws;
pub mod crawl_laws;
pub mod crawler;
pub mod days;
pub mod decode_laws;
pub mod durability;
pub mod events;
pub mod executor;
pub mod executor_laws;
pub mod format_laws;
pub mod frontend;
pub mod frontier;
pub mod history;
pub mod inspect;
pub mod intake;
pub mod invites;
pub mod json;
pub mod le;
pub mod limit_laws;
pub mod matchlist;
pub mod messages;
pub mod metrics;
pub mod mock;
pub mod named;
pub mod node_laws;
pub mod parse;
pub mod parse_laws;
pub mod progress;
pub mod ratelimit;
pub mod raw;
pub mod recompact;
pub mod recompact_laws;
pub mod record;
pub mod record_laws;
pub mod proto;
pub mod registry;
pub mod riot;
pub mod samples;
pub mod seen;
pub mod segment;
pub mod segment_write;
pub mod sorted;
pub mod stats;
pub mod stats_laws;
pub mod store;
pub mod store_laws;
pub mod table;
pub mod text;
pub mod text_laws;
pub mod timeline;
pub mod timeline_laws;
pub mod tracking;
pub mod wire;
pub mod worker;
