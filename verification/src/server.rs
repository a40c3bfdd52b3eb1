//! The decisions of the local HTTP API: request checks, result limits and
//! the context returned by the chat endpoint.

use vstd::prelude::*;
use crate::text::{is_blank, trim};
use crate::commands::{Snippet, numbered_context, write_numbered_context};

verus! {

/// A search request: the query, an optional expansion and an optional limit.
#[derive(Debug, Clone, PartialEq, Eq)]
pub struct SearchQuery {
    pub q: String,
    pub expanded_q: Option<String>,
    pub limit: Option<usize>,
}

/// A chat request: the question and, optionally, the chunks to answer from.
#[derive(Debug, Clone, PartialEq, Eq)]
pub struct ChatQuery {
    pub query: String,
    pub selected_ids: Option<Vec<String>>,
}

/// The most results a search returns when no limit is asked for.
pub const DEFAULT_SEARCH_LIMIT: usize = 20;

/// The most results a search ever returns.
pub const MAX_SEARCH_LIMIT: usize = 100;

/// The refusal of a blank query.
pub const EMPTY_QUERY: &'static str = "Query cannot be empty";

impl SearchQuery {
    /// How many results are returned: the limit asked for, 20 by default,
    /// never more than 100.
    pub fn result_limit(&self) -> (n: usize)
        ensures
            self.limit is None ==> n == DEFAULT_SEARCH_LIMIT,
            self.limit matches Some(l) ==> n == if l < MAX_SEARCH_LIMIT {
                l
            } else {
                MAX_SEARCH_LIMIT
            },
    {
        let l = match self.limit {
            Some(l) => l,
            None => DEFAULT_SEARCH_LIMIT,
        };
        if l < MAX_SEARCH_LIMIT {
            l
        } else {
            MAX_SEARCH_LIMIT
        }
    }
}

/// A query is refused when it is blank.
pub fn check_query(query: &str) -> (r: Result<(), String>)
    ensures
        trim(query@).len() == 0 <==> r is Err,
        r matches Err(m) ==> m@ == EMPTY_QUERY@,
{
    if is_blank(query) {
        Err(EMPTY_QUERY.to_owned())
    } else {
        Ok(())
    }
}

/// Keeps the first `limit` of `results` and gives how many there were.
pub fn take_page<T>(results: &mut Vec<T>, limit: usize) -> (total: usize)
    ensures
        total == old(results)@.len(),
        limit >= total ==> final(results)@ == old(results)@,
        limit < total ==> final(results)@ == old(results)@.take(limit as int),
{
    let total = results.len();
    results.truncate(limit);
    total
}

/// The context returned by the chat endpoint:
/// `"【片段 n】(来自: name)\ncontent\n\n"` for each snippet.
pub fn chat_context(snippets: &Vec<Snippet>) -> (r: String)
    ensures
        r@ == numbered_context(snippets@, "【片段 "@, "】(来自: "@),
{
    write_numbered_context(snippets, "【片段 ", "】(来自: ")
}

} // verus!
