//! What a command-line client decides: its options, the formats of files,
//! conversions, requests and the catalog of models.
pub mod catalog;
pub mod convert;
pub mod formats;
pub mod laws;
pub mod messages;
pub mod options;
pub mod outcome_laws;
pub mod request;
pub mod request_laws;
pub mod topology;
