//! Sortable, human-readable identifiers and a manifest container format.
//!
//! The library generates time-ordered, collision-resistant string
//! identifiers in two flavors — a plain monotonic form and a node-aware
//! hybrid-logical-clock form — together with the grammar that parses and
//! validates them, and frames opaque payloads behind a small self-describing
//! binary manifest format.
//!
//! # Identifier formats
//!
//! ```text
//! WID     ::= TIMESTAMP "." SEQ "Z" [ "-" PAD ]
//! HLC-WID ::= TIMESTAMP "." LC "Z" "-" NODE [ "-" PAD ]
//! ```
//!
//! The timestamp is a fixed-width civil UTC timestamp (`YYYYMMDDTHHMMSS`,
//! with three millisecond digits in `ms` mode), so identifiers drawn from
//! one generator compare strictly increasing as plain strings; the
//! monotonicity, round-trip and rollover laws are stated and proved beside
//! the generators in [`wid`] and [`hlc`].

pub mod cal;
pub mod hlc;
pub mod json;
pub mod manifest;
pub mod reader;
pub mod sys;
pub mod text;
pub mod tstamp;
pub mod wid;

pub use hlc::{
    parse_hlc_wid, parse_hlc_wid_with_unit, validate_hlc_wid, validate_hlc_wid_with_unit,
    HLCState, HLCWidGen, ParsedHlcWid,
};
pub use manifest::{
    DataType, Manifest, ManifestError, MetaValue, SynapseFile, MANIFEST_VERSION,
    MAX_MANIFEST_SIZE,
};
pub use tstamp::{TimeUnit, UtcTime};
pub use wid::{
    parse_wid, parse_wid_with_unit, validate_wid, validate_wid_with_unit, ParsedWid, WidError,
    WidGen,
};
