//! Bookkeeping of compiled code: which guest code has been compiled, which
//! function-table slots it holds, when it goes stale, and what is compiled next.

pub mod index;
pub mod recency;
pub mod block;
pub mod table;
pub mod tier_laws;
pub mod code;
pub mod control;
pub mod dispatch;
pub mod pages;
pub mod policy;
pub mod state;
pub mod dirty;
pub mod queue;
pub mod landing;
pub mod landing_laws;
pub mod regions;
pub mod builds;
pub mod issue;
pub mod run;
pub mod run_laws;
pub mod profile;
pub mod stats;
