//! Streaming, in-place reverse complement of line-wrapped sequence records.

pub mod complement;
pub mod chunks;
pub mod layout;
pub mod record;
pub mod search;
pub mod scanner;
