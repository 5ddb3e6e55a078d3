//! Language-server features that work on parsed files and symbol
//! tables, independent of the protocol.

pub mod call_hierarchy;
pub mod rename;
pub mod signature_help;
pub mod code_action;
pub mod hover;
pub mod formatting;
pub mod document;
pub mod document_symbol;
pub mod handlers;
pub mod tracing_layer;

pub use document::DocumentStore;
pub use tracing_layer::SlowRequestLayer;
