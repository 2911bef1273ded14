//! Folio: a personal planner and Markdown notes vault.
use vstd::prelude::*;

pub mod text;
pub mod linebreaks;
pub mod paths;
pub mod planner;
pub mod note;
pub mod failure;
pub mod crypto;
pub mod tokens;
pub mod password;
pub mod service;
pub mod auth;
pub mod planning;
pub mod order;
pub mod client;
pub mod folders;
pub mod vault;
pub mod recovery;
pub mod routes;
pub mod timing;
pub mod indexing;
pub mod listing;
pub mod gateway;
pub mod storage;
pub mod writeback;
pub mod preview;

pub use note::{
    rename_title, summarize, validate_note, ApiError, Note, NoteSummary, SaveNote, LIST_LIMIT,
    MAX_MARKDOWN_BYTES, MAX_REQUEST_BYTES,
};
pub use paths::valid_id;
pub use planner::{checkboxes, default_folder, valid_date, valid_folder, valid_time, Goal, Task};

verus! {

} // verus!
