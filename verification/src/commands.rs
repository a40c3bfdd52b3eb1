//! The decisions behind the user-facing commands: what a search does, which
//! persona answers, what the model is given, and which files may be opened.

use vstd::prelude::*;
use vstd::string::StringExecFns;
use crate::text::{decimal, push_decimal, same_text, is_blank, trim, contains_seq};

verus! {

/// The query that asks for a summary of the latest chunks instead of a search.
pub const SUMMARIZE_ALL: &'static str = "__SUMMARIZE_ALL__";

/// How a search request is served.
#[derive(Debug, Clone, Copy, PartialEq, Eq)]
pub enum SearchPlan {
    /// A blank query finds nothing.
    Nothing,
    /// The summary request lists the chunks of the most recently changed files.
    RecentChunks,
    /// Any other query is ranked by meaning and keywords.
    Ranked,
}

/// How the search for `query` is served.
pub fn search_plan(query: &str) -> (p: SearchPlan)
    ensures
        trim(query@).len() == 0 ==> p == SearchPlan::Nothing,
        trim(query@).len() > 0 && query@ == SUMMARIZE_ALL@ ==> p == SearchPlan::RecentChunks,
        trim(query@).len() > 0 && query@ != SUMMARIZE_ALL@ ==> p == SearchPlan::Ranked,
{
    if is_blank(query) {
        SearchPlan::Nothing
    } else if same_text(query, SUMMARIZE_ALL) {
        SearchPlan::RecentChunks
    } else {
        SearchPlan::Ranked
    }
}

/// Whether the query is expanded into keywords by the model before the
/// search: not for the summary request, and only when an API key is set.
pub fn should_expand_query(query: &str, has_api_key: bool) -> (b: bool)
    ensures
        b == (query@ != SUMMARIZE_ALL@ && has_api_key),
{
    !same_text(query, SUMMARIZE_ALL) && has_api_key
}

/// The system prompt of the medical expert persona.
pub const MEDICAL_PROMPT: &'static str = "You are a professional \"Medical Review Expert\". Your task is to answer the user's question based on the provided [Knowledge Base Snippets].\n### Rules:\n1. **Fact Extraction**: First list the core medical facts from the local documents.\n2. **Critical Review**: Actively point out potential limitations in the documents (e.g., lack of control groups, small sample size, side effects). Offer advanced complication warnings or interaction analysis from a medical perspective.\n3. If no record is found, explicitly state that it was not found. Use professional medical terminology.\n4. **Language Matching**: CRITICAL - You MUST use the EXACT same language as the user's question. If the user asks in English, reply entirely in English. If Chinese, reply in Chinese.";

/// The system prompt of the legal compliance persona.
pub const LEGAL_PROMPT: &'static str = "You are a senior \"Legal Compliance Review Expert\". Your task is to answer the question based on the provided [Knowledge Base Snippets].\n### Rules:\n1. **Fact Summarization**: Extract core information from contracts, terms, or bills.\n2. **Risk Insight**: Keenly point out possible legal risks, breach hazards, or loopholes in exemption clauses. Proactively warn of potential compliance issues.\n3. Maintain a rigorous and objective legal counsel style.\n4. **Language Matching**: CRITICAL - You MUST use the EXACT same language as the user's question. If the user asks in English, reply entirely in English. If Chinese, reply in Chinese.";

/// The system prompt of the software architect persona.
pub const CODER_PROMPT: &'static str = "You are a \"Senior System Architect\". Your task is to answer the question based on the provided [Codebase/Technical Document Snippets].\n### Rules:\n1. **Technical Analysis**: Quickly summarize the code logic or architectural intent.\n2. **Architectural Review**: Point out potential performance bottlenecks, security vulnerabilities, design flaws, or refactoring suggestions. Provide a higher architectural perspective.\n3. Give specific and elegant code improvement suggestions.\n4. **Language Matching**: CRITICAL - You MUST use the EXACT same language as the user's question. If the user asks in English, reply entirely in English. If Chinese, reply in Chinese.";

/// The system prompt of the default archive analyst persona.
pub const ARCHIVIST_PROMPT: &'static str = "You are a professional \"Knowledge Archive Analyst\". Your task is to answer the user's question based on the provided [Knowledge Base Snippets].\n### Rules:\n1. **Fact First**: Answer ONLY based on the snippet content. If not mentioned in the snippets, straightforwardly reply \"Based on the existing local archives, no relevant records were found.\"\n2. **Structured Output**: Use `##` titles to divide modules, and use `-` lists to organize key points. Highlight key data in bold.\n3. Language style: Professional, rigorous, and objective.\n4. **Language Matching**: CRITICAL - You MUST respond entirely in the EXACT SAME LANGUAGE as the user's prompt. If the prompt is in English, output English headings and body text. If Chinese, output Chinese.";

/// The system prompt of a persona: `medical`, `legal` and `coder` have
/// their own; any other name, and no name, get the archive analyst.
pub open spec fn persona_prompt(persona: Option<Seq<char>>) -> Seq<char> {
    match persona {
        Some(p) => if p == "medical"@ {
            MEDICAL_PROMPT@
        } else if p == "legal"@ {
            LEGAL_PROMPT@
        } else if p == "coder"@ {
            CODER_PROMPT@
        } else {
            ARCHIVIST_PROMPT@
        },
        None => ARCHIVIST_PROMPT@,
    }
}

/// The text of an optional string.
pub open spec fn opt_text(o: Option<String>) -> Option<Seq<char>> {
    match o {
        Some(s) => Some(s@),
        None => None,
    }
}

/// The system prompt of the persona named `persona` (see `persona_prompt`).
pub fn persona_system_prompt(persona: Option<String>) -> (r: String)
    ensures
        r@ == persona_prompt(opt_text(persona)),
{
    match persona {
        Some(p) => {
            if same_text(p.as_str(), "medical") {
                MEDICAL_PROMPT.to_owned()
            } else if same_text(p.as_str(), "legal") {
                LEGAL_PROMPT.to_owned()
            } else if same_text(p.as_str(), "coder") {
                CODER_PROMPT.to_owned()
            } else {
                ARCHIVIST_PROMPT.to_owned()
            }
        },
        None => ARCHIVIST_PROMPT.to_owned(),
    }
}

/// The request put to the model in place of the summary query.
pub const SUMMARY_REQUEST: &'static str = "Please provide a comprehensive summary of the currently retrieved knowledge base assets, extracting core themes, key projects, and important conclusions. You MUST respond entirely in the same language as the user's interface language.";

/// The user message for the model: the query, or, for the summary query,
/// the summary request.
pub fn rag_user_query(query: &str) -> (r: String)
    ensures
        query@ == SUMMARIZE_ALL@ ==> r@ == SUMMARY_REQUEST@,
        query@ != SUMMARIZE_ALL@ ==> r@ == query@,
{
    if same_text(query, SUMMARIZE_ALL) {
        SUMMARY_REQUEST.to_owned()
    } else {
        query.to_owned()
    }
}

/// The most sources an answer is grounded on.
pub const MAX_SOURCES: usize = 5;

/// The answer when nothing relevant was found.
pub const NOTHING_FOUND: &'static str = "知识库中未找到相关内容";

/// Keeps the best `MAX_SOURCES` of the ranked `results`; fails with
/// `NOTHING_FOUND` when there are none.
pub fn keep_top_sources<T>(results: &mut Vec<T>) -> (r: Result<(), String>)
    ensures
        old(results)@.len() <= MAX_SOURCES ==> final(results)@ == old(results)@,
        old(results)@.len() > MAX_SOURCES ==> final(results)@ == old(results)@.take(
            MAX_SOURCES as int,
        ),
        old(results)@.len() == 0 <==> r is Err,
        r matches Err(m) ==> m@ == NOTHING_FOUND@,
{
    results.truncate(MAX_SOURCES);
    if results.len() == 0 {
        Err(NOTHING_FOUND.to_owned())
    } else {
        Ok(())
    }
}

/// A retrieved chunk as it is shown to the model: its file's name and its text.
#[derive(Debug, Clone, PartialEq, Eq)]
pub struct Snippet {
    pub file_name: String,
    pub content: String,
}

/// The snippets numbered from 1: each is `open`, its number, `mid`, the
/// file name, `")\n"`, the content and a blank line.
pub open spec fn numbered_context(items: Seq<Snippet>, open: Seq<char>, mid: Seq<char>) -> Seq<
    char,
>
    decreases items.len(),
{
    if items.len() == 0 {
        Seq::empty()
    } else {
        let s = items.last();
        numbered_context(items.drop_last(), open, mid) + open + decimal(items.len()) + mid
            + s.file_name@ + ")\n"@ + s.content@ + "\n\n"@
    }
}

/// The entry of the snippet `s` numbered `n`: `open`, the number, `mid`,
/// the file name, `")\n"`, the content and a blank line.
pub open spec fn context_entry(n: nat, s: Snippet, open: Seq<char>, mid: Seq<char>) -> Seq<char> {
    open + decimal(n) + mid + s.file_name@ + ")\n"@ + s.content@ + "\n\n"@
}

/// Every snippet gets its entry: one more snippet adds its own entry,
/// numbered one past those before, at the end of the context, whatever its
/// file and whatever came before.
pub proof fn lemma_context_push(items: Seq<Snippet>, s: Snippet, open: Seq<char>, mid: Seq<char>)
    ensures
        numbered_context(items.push(s), open, mid) == numbered_context(items, open, mid)
            + context_entry(items.len() + 1, s, open, mid),
{
    assert(items.push(s).drop_last() =~= items);
    assert(numbered_context(items, open, mid) + open + decimal(items.len() + 1) + mid
        + s.file_name@ + ")\n"@ + s.content@ + "\n\n"@ =~= numbered_context(items, open, mid)
        + context_entry(items.len() + 1, s, open, mid));
}

/// The context of the first snippets is the start of the context of all
/// of them.
pub proof fn lemma_context_prefix(items: Seq<Snippet>, i: int, open: Seq<char>, mid: Seq<char>)
    requires
        0 <= i <= items.len(),
    ensures
        numbered_context(items, open, mid).subrange(0, numbered_context(items.take(i), open, mid).len() as int)
            == numbered_context(items.take(i), open, mid),
        numbered_context(items.take(i), open, mid).len() <= numbered_context(items, open, mid).len(),
    decreases items.len() - i,
{
    if i < items.len() {
        lemma_context_prefix(items, i + 1, open, mid);
        assert(items.take(i + 1) =~= items.take(i).push(items[i]));
        lemma_context_push(items.take(i), items[i], open, mid);
        let a = numbered_context(items.take(i), open, mid);
        let b = numbered_context(items.take(i + 1), open, mid);
        let c = numbered_context(items, open, mid);
        assert(b.subrange(0, a.len() as int) =~= a);
        assert(c.subrange(0, a.len() as int) =~= b.subrange(0, a.len() as int));
    } else {
        assert(items.take(i) =~= items);
        let c = numbered_context(items, open, mid);
        assert(c.subrange(0, c.len() as int) =~= c);
    }
}

/// No snippet is left out: the entry of the `i`-th snippet, numbered
/// `i + 1`, and so its content, lies within the context.
pub proof fn lemma_context_holds_every_snippet(items: Seq<Snippet>, i: int, open: Seq<char>, mid: Seq<char>)
    requires
        0 <= i < items.len(),
    ensures
        contains_seq(numbered_context(items, open, mid), context_entry((i + 1) as nat, items[i], open, mid)),
        contains_seq(numbered_context(items, open, mid), items[i].content@),
{
    lemma_context_prefix(items, i + 1, open, mid);
    assert(items.take(i + 1) =~= items.take(i).push(items[i]));
    lemma_context_push(items.take(i), items[i], open, mid);
    let a = numbered_context(items.take(i), open, mid);
    let e = context_entry((i + 1) as nat, items[i], open, mid);
    let c = numbered_context(items, open, mid);
    let b = numbered_context(items.take(i + 1), open, mid);
    assert(b == a + e);
    assert(c.subrange(0, b.len() as int) == b);
    let ai: int = a.len() as int;
    assert(c.subrange(ai, ai + e.len()) =~= e) by {
        assert forall|j: int| 0 <= j < e.len() implies #[trigger] c.subrange(ai, ai + e.len())[j] == e[j] by {
            assert(c.subrange(0, b.len() as int)[ai + j] == b[ai + j]);
        }
    }
    let pre = open + decimal((i + 1) as nat) + mid + items[i].file_name@ + ")\n"@;
    let k: int = ai + pre.len();
    let t = items[i].content@;
    assert(e =~= pre + t + "\n\n"@);
    assert(c.subrange(k, k + t.len()) =~= t) by {
        assert forall|j: int| 0 <= j < t.len() implies #[trigger] c.subrange(k, k + t.len())[j] == t[j] by {
            assert(c.subrange(ai, ai + e.len())[pre.len() + j] == e[pre.len() + j]);
        }
    }
}

/// Writes `snippets` numbered from 1 (see `numbered_context`).
pub fn write_numbered_context(snippets: &Vec<Snippet>, open: &str, mid: &str) -> (r: String)
    ensures
        r@ == numbered_context(snippets@, open@, mid@),
{
    let mut r = String::new();
    let mut i: usize = 0;
    assert(snippets@.take(0) =~= Seq::<Snippet>::empty());
    while i < snippets.len()
        invariant
            i <= snippets@.len(),
            r@ == numbered_context(snippets@.take(i as int), open@, mid@),
        decreases snippets.len() - i,
    {
        let s = &snippets[i];
        r.append(open);
        push_decimal(&mut r, i + 1);
        r.append(mid);
        r.append(s.file_name.as_str());
        r.append(")\n");
        r.append(s.content.as_str());
        r.append("\n\n");
        assert(snippets@.take(i + 1).drop_last() =~= snippets@.take(i as int));
        i = i + 1;
    }
    assert(snippets@.take(snippets@.len() as int) =~= snippets@);
    r
}

/// The knowledge-base context of a chat answer:
/// `"[Snippet n] (From: name)\ncontent\n\n"` for each snippet.
pub fn rag_context(snippets: &Vec<Snippet>) -> (r: String)
    ensures
        r@ == numbered_context(snippets@, "[Snippet "@, "] (From: "@),
{
    write_numbered_context(snippets, "[Snippet ", "] (From: ")
}

/// The reply in local mode, when no API key could be read: the search ran,
/// and an API key is needed for a summary by the model.
pub const LOCAL_MODE_REPLY: &'static str = "**[本地检索模式]**\n\n知识库检索完成。如需 AI 总结，请设置 API Key。";

/// How a chat's reply went.
#[derive(Debug)]
pub enum ChatOutcome {
    /// No API key could be read, so the model was not asked.
    NoKey,
    /// The model's reply streamed to its end.
    Replied,
    /// The model's reply failed with this message.
    Failed(String),
}

/// An event sent to the chat window.
#[derive(Debug)]
pub enum ChatEvent {
    /// A piece of the reply.
    Token(String),
    /// The reply failed.
    Error(String),
    /// The chat is over.
    Done,
}

/// The events that close a chat, once the reply went as `outcome`: the
/// local-mode note when there was no key, the error when the reply failed,
/// and then, always, the end of the chat.
pub fn closing_events(outcome: ChatOutcome) -> (r: Vec<ChatEvent>)
    ensures
        match outcome {
            ChatOutcome::NoKey => r@.len() == 2 && (r@[0] matches ChatEvent::Token(t) && t@
                == LOCAL_MODE_REPLY@) && r@[1] is Done,
            ChatOutcome::Replied => r@.len() == 1 && r@[0] is Done,
            ChatOutcome::Failed(e) => r@.len() == 2 && (r@[0] matches ChatEvent::Error(m) && m@
                == e@) && r@[1] is Done,
        },
{
    let mut r: Vec<ChatEvent> = Vec::new();
    match outcome {
        ChatOutcome::NoKey => r.push(ChatEvent::Token(LOCAL_MODE_REPLY.to_string())),
        ChatOutcome::Replied => {},
        ChatOutcome::Failed(e) => r.push(ChatEvent::Error(e)),
    }
    r.push(ChatEvent::Done);
    r
}

/// Whether the file at `path` lies inside the folder `base`, comparing
/// whole path components (`std::path::Path::starts_with`).
pub uninterp spec fn path_starts_with(path: Seq<char>, base: Seq<char>) -> bool;

/// `std::path::Path::starts_with`. Its result is named `path_starts_with`
/// of the two paths; the component rules behind it are not stated.
#[verifier::external_body]
fn path_has_prefix(path: &str, base: &str) -> (b: bool)
    ensures
        b == path_starts_with(path@, base@),
{
    std::path::Path::new(path).starts_with(base)
}

/// The message when no folder is watched.
pub const NO_WATCH_FOLDER: &'static str = "尚未设置监控目录，无法打开文件";

/// The verdict on opening `path` once both paths were resolved: allowed
/// when the file lies inside the watched folder `watch_path`.
pub fn open_verdict(path: &str, watch_path: &str, inside: bool) -> (r: Result<(), String>)
    ensures
        inside ==> r is Ok,
        !inside ==> (r matches Err(m) && m@ == "安全错误: 路径 '"@ + path@ + "' 不在监控目录 '"@
            + watch_path@ + "' 之下"@),
{
    if inside {
        Ok(())
    } else {
        let mut m = "安全错误: 路径 '".to_owned();
        m.append(path);
        m.append("' 不在监控目录 '");
        m.append(watch_path);
        m.append("' 之下");
        Err(m)
    }
}

/// Whether the file at `path` may be opened. `canonical_path` is the
/// resolved path, or why it could not be resolved; `watch` is the watched
/// folder, if any, with its resolved path or why that failed. Only files
/// inside the watched folder may be opened.
pub fn authorize_open(
    path: &str,
    canonical_path: Result<String, String>,
    watch: Option<(String, Result<String, String>)>,
) -> (r: Result<(), String>)
    ensures
        match canonical_path {
            Err(e) => r matches Err(m) && m@ == "无法解析路径 '"@ + path@ + "': "@ + e@,
            Ok(cp) => match watch {
                None => r matches Err(m) && m@ == NO_WATCH_FOLDER@,
                Some((wp, Err(e))) => r matches Err(m) && m@ == "无法解析监控路径 '"@ + wp@
                    + "': "@ + e@,
                Some((wp, Ok(cw))) => if path_starts_with(cp@, cw@) {
                    r is Ok
                } else {
                    r matches Err(m) && m@ == "安全错误: 路径 '"@ + path@ + "' 不在监控目录 '"@
                        + wp@ + "' 之下"@
                },
            },
        },
{
    match canonical_path {
        Err(e) => {
            let mut m = "无法解析路径 '".to_owned();
            m.append(path);
            m.append("': ");
            m.append(e.as_str());
            Err(m)
        },
        Ok(cp) => match watch {
            None => Err(NO_WATCH_FOLDER.to_owned()),
            Some((wp, Err(e))) => {
                let mut m = "无法解析监控路径 '".to_owned();
                m.append(wp.as_str());
                m.append("': ");
                m.append(e.as_str());
                Err(m)
            },
            Some((wp, Ok(cw))) => {
                let inside = path_has_prefix(cp.as_str(), cw.as_str());
                open_verdict(path, wp.as_str(), inside)
            },
        },
    }
}

} // verus!
