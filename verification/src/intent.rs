//! A first look at what a query asks for.

use vstd::prelude::*;

verus! {

/// How clear a query is.
#[derive(Debug, Clone, Copy, PartialEq, Eq)]
pub enum IntentType {
    ClearQuery,
    Ambiguous,
    NeedsContext,
}

/// The verdict on a query, with the message shown to the user.
#[derive(Debug, Clone, PartialEq, Eq)]
pub struct IntentDiagnosis {
    pub intent_type: IntentType,
    pub suggested_query: Option<String>,
    pub response_message: String,
}

pub struct IntentAnalyzer;

impl IntentAnalyzer {
    /// A query shorter than five bytes (UTF-8, `str::len`) is too short to search for
    /// and asks for more context; any other query is searched as written.
    pub fn analyze_intent(query: &str) -> (d: IntentDiagnosis)
        ensures
            query.len() < 5 ==> {
                &&& d.intent_type == IntentType::Ambiguous
                &&& d.suggested_query is None
                &&& d.response_message@ == "您的提问太简短了，能提供更多背景信息吗？"@
            },
            query.len() >= 5 ==> {
                &&& d.intent_type == IntentType::ClearQuery
                &&& d.suggested_query matches Some(q) && q@ == query@
                &&& d.response_message@ == "正在为您检索..."@
            },
    {
        if query.len() < 5 {
            IntentDiagnosis {
                intent_type: IntentType::Ambiguous,
                suggested_query: None,
                response_message: "您的提问太简短了，能提供更多背景信息吗？".to_owned(),
            }
        } else {
            IntentDiagnosis {
                intent_type: IntentType::ClearQuery,
                suggested_query: Some(query.to_owned()),
                response_message: "正在为您检索...".to_owned(),
            }
        }
    }
}

} // verus!
