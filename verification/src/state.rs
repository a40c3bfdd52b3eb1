//! Shared plain data of the application.

use vstd::prelude::*;

verus! {

/// The chat-completions endpoint used when none is configured.
pub const DEFAULT_API_URL: &'static str = "https://apihub.agnes-ai.com/v1/chat/completions";

/// The chat model used when none is configured.
pub const DEFAULT_MODEL: &'static str = "moonshotai/kimi-k2.6";

/// An indexed file as listed to the user.
#[derive(Debug, Clone, PartialEq, Eq)]
pub struct FileInfo {
    pub path: String,
    pub name: String,
    pub modified: u64,
}

} // verus!
