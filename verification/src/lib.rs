//! Ordering and presentation of mail threads: tree rendering, templates,
//! highlighting and chronological merging of matched messages.

pub mod error;
pub mod highlight;
pub mod merge;
pub mod message;
pub mod navigate;
pub mod ordered;
pub mod runtime;
pub mod template;
pub mod text;
pub mod thread;
pub mod time;
pub mod tree;
