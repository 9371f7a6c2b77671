//! A bridge between a tool-invocation protocol and a language-intelligence
//! backend: message framing, request correlation, document synchronisation
//! and diagnostics bookkeeping, each stated and proved over plain models.

pub mod framing;
pub mod roundtrip;
pub mod table;
pub mod json;
pub mod diagnostics;
pub mod documents;
pub mod correlator;
pub mod session;
pub mod workspace;
pub mod dispatch;
