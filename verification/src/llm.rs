//! Endpoints, prompts and the handling of the streamed chat reply.

use vstd::prelude::*;
use vstd::string::StringExecFns;
use crate::state::DEFAULT_API_URL;
use crate::text::{
    contains_seq, ends_with_seq, trim, trim_end_char, contains_text, ends_with_text,
    same_text, trim_end_matches_char, trimmed,
};

verus! {

/// The endpoint a chat request goes to: the default when none is set; the
/// URL as given when it already names `/chat/completions`; otherwise the URL
/// without trailing slashes, extended by `/chat/completions` when it ends in
/// `/v1` and by `/v1/chat/completions` when not.
pub open spec fn completions_url(api_url: Seq<char>) -> Seq<char> {
    if api_url.len() == 0 {
        DEFAULT_API_URL@
    } else if !contains_seq(api_url, "/chat/completions"@) {
        let base = trim_end_char(api_url, '/');
        if ends_with_seq(base, "/v1"@) {
            base + "/chat/completions"@
        } else {
            base + "/v1/chat/completions"@
        }
    } else {
        api_url
    }
}

proof fn lemma_contains_suffix(base: Seq<char>, t: Seq<char>)
    ensures
        contains_seq(base + t, t),
{
    assert((base + t).subrange(base.len() as int, (base.len() + t.len()) as int) =~= t);
}

/// Every endpoint names `/chat/completions`, and normalizing an endpoint
/// that was already normalized changes nothing.
pub proof fn lemma_completions_url_idempotent(api_url: Seq<char>)
    ensures
        contains_seq(completions_url(api_url), "/chat/completions"@),
        completions_url(completions_url(api_url)) == completions_url(api_url),
{
    reveal_strlit("/chat/completions");
    reveal_strlit("/v1/chat/completions");
    reveal_strlit("https://apihub.agnes-ai.com/v1/chat/completions");
    let t = "/chat/completions"@;
    if api_url.len() == 0 {
        let d = DEFAULT_API_URL@;
        assert(d =~= "https://apihub.agnes-ai.com/v1"@ + t) by {
            reveal_strlit("https://apihub.agnes-ai.com/v1");
        }
        lemma_contains_suffix("https://apihub.agnes-ai.com/v1"@, t);
    } else if !contains_seq(api_url, t) {
        let base = trim_end_char(api_url, '/');
        if ends_with_seq(base, "/v1"@) {
            lemma_contains_suffix(base, t);
        } else {
            assert(base + "/v1/chat/completions"@ =~= (base + "/v1"@) + t) by {
                reveal_strlit("/v1");
            }
            lemma_contains_suffix(base + "/v1"@, t);
        }
    }
}

/// A URL that already names `/chat/completions` anywhere (a query string
/// may follow it) is used exactly as given.
pub proof fn lemma_completions_url_keeps_named(api_url: Seq<char>)
    requires
        api_url.len() > 0,
        contains_seq(api_url, "/chat/completions"@),
    ensures
        completions_url(api_url) == api_url,
{
}

/// A URL that does not name `/chat/completions` keeps all it says, but for
/// its trailing slashes, and gains the endpoint's path at its end.
pub proof fn lemma_completions_url_extends(api_url: Seq<char>)
    requires
        api_url.len() > 0,
        !contains_seq(api_url, "/chat/completions"@),
    ensures
        completions_url(api_url).subrange(0, trim_end_char(api_url, '/').len() as int)
            == trim_end_char(api_url, '/'),
        ends_with_seq(completions_url(api_url), "/chat/completions"@),
{
    reveal_strlit("/chat/completions");
    reveal_strlit("/v1/chat/completions");
    let base = trim_end_char(api_url, '/');
    let r = completions_url(api_url);
    let t = "/chat/completions"@;
    if ends_with_seq(base, "/v1"@) {
        assert(r == base + t);
    } else {
        assert(base + "/v1/chat/completions"@ =~= (base + "/v1"@) + t) by {
            reveal_strlit("/v1");
        }
    }
    assert(r.subrange(0, base.len() as int) =~= base);
    assert(r.subrange(r.len() - t.len(), r.len() as int) =~= t);
}

/// The endpoint for a streamed chat request (see `completions_url`).
pub fn chat_completions_url(api_url: &str) -> (r: String)
    ensures
        r@ == completions_url(api_url@),
{
    if api_url.is_empty() {
        DEFAULT_API_URL.to_owned()
    } else if !contains_text(api_url, "/chat/completions") {
        let mut base = trim_end_matches_char(api_url, '/');
        if ends_with_text(base.as_str(), "/v1") {
            base.append("/chat/completions");
        } else {
            base.append("/v1/chat/completions");
        }
        base
    } else {
        api_url.to_owned()
    }
}

/// The endpoint for a query-expansion request: the configured URL, or, when
/// it is empty, the one from the environment (`VAULTSEEK_API_URL`), or the default.
pub fn expansion_url(api_url: &str, env_url: Option<String>) -> (r: String)
    ensures
        api_url@.len() > 0 ==> r@ == api_url@,
        api_url@.len() == 0 ==> match env_url {
            Some(u) => r@ == u@,
            None => r@ == DEFAULT_API_URL@,
        },
{
    if api_url.is_empty() {
        match env_url {
            Some(u) => u,
            None => DEFAULT_API_URL.to_owned(),
        }
    } else {
        api_url.to_owned()
    }
}

/// The instruction that asks the model for search keywords.
pub const EXPANSION_SYSTEM_PROMPT: &'static str = "你是一个检索意图优化专家。请将用户的大白话提问扩充为 5 个适用于本地知识库检索的专业关键词，以逗号分隔，不要包含任何多余解释。";

/// The text placed between a persona prompt and the retrieved snippets.
pub const CONTEXT_PREAMBLE: &'static str = "\n\n如果知识库片段中没有相关信息，请明确说明，不要编造。\n\n知识库片段如下：\n\n";

/// The system message of a grounded chat: the persona prompt, the rule not
/// to invent anything, then the snippets.
pub fn grounded_system_prompt(template: &str, context: &str) -> (r: String)
    ensures
        r@ == template@ + CONTEXT_PREAMBLE@ + context@,
{
    let mut r = template.to_owned();
    r.append(CONTEXT_PREAMBLE);
    r.append(context);
    r
}

/// What to do with one message of the event stream.
#[derive(Debug, Clone, PartialEq, Eq)]
pub enum StreamAction {
    /// The reply is complete.
    Done,
    /// A piece of the reply to show.
    Token(String),
    /// The service reported an error.
    Error(String),
    /// Nothing to show.
    Ignore,
}

/// What to do when the event stream fails.
#[derive(Debug, Clone, PartialEq, Eq)]
pub enum StreamFailure {
    /// The connection closed early; the reply ends quietly.
    EndQuietly,
    /// The chat fails with this message.
    Fail(String),
}

/// The action for a message whose data is `data`. `delta` is the result of
/// decoding the trimmed data as a completion delta (`None` when it is not
/// one; else the content of its first choice, if any), and `error_message`
/// the `error.message` text of the trimmed data read as JSON, if any.
pub fn stream_message_action(
    data: &str,
    delta: Option<Option<String>>,
    error_message: Option<String>,
) -> (a: StreamAction)
    ensures
        trim(data@) == "[DONE]"@ ==> a == StreamAction::Done,
        trim(data@) != "[DONE]"@ ==> match delta {
            Some(Some(t)) => a == StreamAction::Token(t),
            Some(None) => a == StreamAction::Ignore,
            None => match error_message {
                Some(m) => a == StreamAction::Error(m),
                None => a == StreamAction::Ignore,
            },
        },
{
    let t = trimmed(data);
    if same_text(t.as_str(), "[DONE]") {
        return StreamAction::Done;
    }
    match delta {
        Some(Some(text)) => StreamAction::Token(text),
        Some(None) => StreamAction::Ignore,
        None => match error_message {
            Some(m) => StreamAction::Error(m),
            None => StreamAction::Ignore,
        },
    }
}

/// What `serde_json` reads from a text as the `error.message` string of a
/// JSON object: `None` when the text is not JSON, or has no such string.
pub uninterp spec fn json_error_message(data: Seq<char>) -> Option<Seq<char>>;

/// `serde_json::from_str` into a `serde_json::Value`, then the string at
/// `error` / `message`. Its result is named `json_error_message` of the
/// text; the JSON grammar behind it is not stated.
#[verifier::external_body]
fn read_error_message(data: &str) -> (r: Option<String>)
    ensures
        match r {
            Some(m) => json_error_message(data@) == Some(m@),
            None => json_error_message(data@) is None,
        },
{
    serde_json::from_str::<serde_json::Value>(data).ok().and_then(|v| v.get("error").and_then(|e| e.get("message")).and_then(|m| m.as_str()).map(|m| m.to_string()))
}

/// The action for a message whose data is `data`, where `delta` is the
/// result of decoding the trimmed data as a completion delta (see
/// `stream_message_action`); a service error is looked for in the trimmed
/// data when it is not a delta.
pub fn classify_stream_message(data: &str, delta: Option<Option<String>>) -> (a: StreamAction)
    ensures
        trim(data@) == "[DONE]"@ ==> a == StreamAction::Done,
        trim(data@) != "[DONE]"@ ==> match delta {
            Some(Some(t)) => a == StreamAction::Token(t),
            Some(None) => a == StreamAction::Ignore,
            None => match json_error_message(trim(data@)) {
                Some(m) => a matches StreamAction::Error(e) && e@ == m,
                None => a == StreamAction::Ignore,
            },
        },
{
    let error_message = if delta.is_none() {
        let t = trimmed(data);
        read_error_message(t.as_str())
    } else {
        None
    };
    stream_message_action(data, delta, error_message)
}

/// What `serde_json` reads from the bytes of a chat completion: `Some` with
/// the string at `choices` / `0` / `message` / `content` (`None` inside when
/// there is no string there), or `None` when the bytes are not JSON.
pub uninterp spec fn json_reply_content(data: Seq<u8>) -> Option<Option<Seq<char>>>;

/// `serde_json::from_slice` into a `serde_json::Value`, then the string at
/// `choices` / `0` / `message` / `content` (indexing a `Value` gives `Null`
/// where a key or place is missing). Its result is named
/// `json_reply_content` of the bytes; the JSON grammar is not stated.
#[verifier::external_body]
fn read_reply_content(data: &[u8]) -> (r: Option<Option<String>>)
    ensures
        match r {
            Some(Some(c)) => json_reply_content(data@) == Some(Some(c@)),
            Some(None) => json_reply_content(data@) == Some(None::<Seq<char>>),
            None => json_reply_content(data@) is None,
        },
{
    serde_json::from_slice::<serde_json::Value>(data).ok().map(|v| v["choices"][0]["message"]["content"].as_str().map(|c| c.to_string()))
}

/// The message of a reply body that is not JSON: what the HTTP client
/// (`reqwest`) prints for a body it could not decode.
pub const BODY_DECODE_ERROR: &'static str = "error decoding response body";

/// The expanded query in the body of the reply to an expansion request: the
/// content of the first choice, or the empty text when the reply has none;
/// `BODY_DECODE_ERROR` when the body is not JSON.
pub fn expansion_reply(body: &[u8]) -> (r: Result<String, String>)
    ensures
        match json_reply_content(body@) {
            Some(Some(c)) => r matches Ok(t) && t@ == c,
            Some(None) => r matches Ok(t) && t@.len() == 0,
            None => r matches Err(m) && m@ == BODY_DECODE_ERROR@,
        },
{
    match read_reply_content(body) {
        Some(Some(c)) => Ok(c),
        Some(None) => Ok(String::new()),
        None => Err(BODY_DECODE_ERROR.to_string()),
    }
}

/// The prefix of the failure message of a broken stream.
pub const STREAM_FAILURE_PREFIX: &'static str = "流式传输异常: ";

/// The suffix of the failure message of a broken stream.
pub const STREAM_FAILURE_SUFFIX: &'static str = "。请检查网络或 API URL 配置。";

/// The reaction to a stream error whose text is `error`: an unexpected end
/// of file ends the reply quietly, anything else fails the chat.
pub fn stream_failure(error: &str) -> (f: StreamFailure)
    ensures
        contains_seq(error@, "UnexpectedEof"@) ==> f == StreamFailure::EndQuietly,
        !contains_seq(error@, "UnexpectedEof"@) ==> (f matches StreamFailure::Fail(m) && m@
            == STREAM_FAILURE_PREFIX@ + error@ + STREAM_FAILURE_SUFFIX@),
{
    if contains_text(error, "UnexpectedEof") {
        StreamFailure::EndQuietly
    } else {
        let mut m = STREAM_FAILURE_PREFIX.to_owned();
        m.append(error);
        m.append(STREAM_FAILURE_SUFFIX);
        StreamFailure::Fail(m)
    }
}

} // verus!
