//! A personal journaling library: timestamped entries with stable numeric
//! identities, a textual timestamp codec, an in-memory row store in the
//! persisted representation, and position-to-id resolution over a sorted view.

pub mod backend;
pub mod diaryentry;
pub mod ordering;
pub mod timestamps;
