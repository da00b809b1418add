//! Offline, deterministic anonymization of PII and environment-identifying
//! data found in Azure and Linux diagnostics (sosreport / supportconfig).
//!
//! Recognizers detect spans of sensitive data, the engine resolves overlaps and
//! replaces each surviving span with a stable, correlation-preserving token.

pub mod allowlist;
pub mod bytes;
pub mod config;
pub mod correlation;
pub mod engine;
pub mod ip;
pub mod json;
pub mod known_hosts;
pub mod netaddr;
pub mod overlap;
pub mod pattern;
pub mod recognizers;
pub mod store;
pub mod strategy;
pub mod text;

pub use config::Config;
pub use engine::Anonymizer;
pub use json::{JsonValue, JsonView};
pub use recognizers::archive_root::extract_archive_hostname;
pub use recognizers::{EntityType, RecognizerResult};
