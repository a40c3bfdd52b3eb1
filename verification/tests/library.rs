use vaultseek::batch_processor::{BatchProcessor, BatchResult, LibraryOutcome};
use vaultseek::commands::{
    closing_events, ChatEvent, ChatOutcome, LOCAL_MODE_REPLY,
    authorize_open, keep_top_sources, open_verdict, persona_system_prompt, rag_context,
    rag_user_query, search_plan, should_expand_query, SearchPlan, Snippet, SUMMARY_REQUEST,
};
use vaultseek::config::{load_config, AppConfig};
use vaultseek::db::{contents_by_id, keyword_hits, search_keywords};
use vaultseek::indexer::{transaction_end, ChunkResult, TransactionEnd};
use vaultseek::intent::{IntentAnalyzer, IntentType};
use vaultseek::llm::{
    chat_completions_url, classify_stream_message, expansion_reply, expansion_url, grounded_system_prompt, stream_failure,
    stream_message_action, StreamAction, StreamFailure, EXPANSION_SYSTEM_PROMPT,
};
use vaultseek::parser::{Parser, SheetData};
use vaultseek::prompt_manager::PromptManager;
use vaultseek::server::{chat_context, check_query, take_page, SearchQuery};
use vaultseek::state::{DEFAULT_API_URL, DEFAULT_MODEL};
use vaultseek::text::{is_blank, push_decimal, same_text, trimmed};

#[test]
fn prompt_manager_has_default_and_legal_personas() {
    let m = PromptManager::new();
    assert_eq!(m.templates.len(), 2);
    let d = m.get("default").unwrap();
    assert_eq!(d.name, "默认助手");
    assert_eq!(d.system_prompt, "你是一个专业的知识库助手。请根据提供的本地知识库片段来回答用户的问题。");
    assert_eq!(d.description, "通用问答模式");
    let l = m.get("legal").unwrap();
    assert_eq!(l.name, "法务专家");
    assert_eq!(
        l.system_prompt,
        "你是一位资深法务专家。请结合知识库，从合规、风险控制和法律条款的角度严谨回答问题。"
    );
    assert_eq!(l.description, "合同审核与合规建议");
    assert!(m.get("medical").is_none());
    assert!(m.get("").is_none());
}

#[test]
fn short_queries_are_ambiguous() {
    let d = IntentAnalyzer::analyze_intent("abcd");
    assert_eq!(d.intent_type, IntentType::Ambiguous);
    assert_eq!(d.suggested_query, None);
    assert_eq!(d.response_message, "您的提问太简短了，能提供更多背景信息吗？");
    // One Chinese character is three bytes; two of them are six.
    let d = IntentAnalyzer::analyze_intent("知识");
    assert_eq!(d.intent_type, IntentType::ClearQuery);
    assert_eq!(d.suggested_query, Some("知识".to_string()));
    assert_eq!(d.response_message, "正在为您检索...");
    assert_eq!(IntentAnalyzer::analyze_intent("知").intent_type, IntentType::Ambiguous);
    assert_eq!(IntentAnalyzer::analyze_intent("abcde").intent_type, IntentType::ClearQuery);
}

#[test]
fn config_defaults_and_stored_values() {
    let d = AppConfig::default();
    assert_eq!(d.api_key, None);
    assert_eq!(d.api_url.as_deref(), Some("https://apihub.agnes-ai.com/v1/chat/completions"));
    assert_eq!(d.model.as_deref(), Some("moonshotai/kimi-k2.6"));
    assert_eq!(d.watch_path, None);
    assert_eq!(d.embedding_model_path, None);
    assert_eq!(d.tokenizer_path, None);
    assert_eq!(load_config(None, None, None, None), d);
    let c = load_config(
        Some("k".to_string()),
        Some("http://local".to_string()),
        None,
        Some("/vault".to_string()),
    );
    assert_eq!(c.api_key.as_deref(), Some("k"));
    assert_eq!(c.api_url.as_deref(), Some("http://local"));
    assert_eq!(c.model.as_deref(), Some(DEFAULT_MODEL));
    assert_eq!(c.watch_path.as_deref(), Some("/vault"));
}

#[test]
fn chat_completions_url_normalizes_endpoints() {
    assert_eq!(chat_completions_url(""), DEFAULT_API_URL);
    assert_eq!(
        chat_completions_url("http://localhost:8080/v1/chat/completions"),
        "http://localhost:8080/v1/chat/completions"
    );
    assert_eq!(chat_completions_url("http://h/v1"), "http://h/v1/chat/completions");
    assert_eq!(chat_completions_url("http://h/v1///"), "http://h/v1/chat/completions");
    assert_eq!(chat_completions_url("http://h"), "http://h/v1/chat/completions");
    assert_eq!(chat_completions_url("http://h/api/"), "http://h/api/v1/chat/completions");
    for u in ["", "http://h", "http://h/v1/", "x/chat/completions/y"] {
        let once = chat_completions_url(u);
        assert_eq!(chat_completions_url(&once), once);
        assert!(once.contains("/chat/completions"));
    }
}

#[test]
fn expansion_url_prefers_configuration_then_environment() {
    assert_eq!(expansion_url("http://a", Some("http://b".to_string())), "http://a");
    assert_eq!(expansion_url("", Some("http://b".to_string())), "http://b");
    assert_eq!(expansion_url("", None), DEFAULT_API_URL);
    assert!(EXPANSION_SYSTEM_PROMPT.contains("5 个"));
}

#[test]
fn grounded_prompt_wraps_the_context() {
    assert_eq!(
        grounded_system_prompt("SYS", "CTX"),
        "SYS\n\n如果知识库片段中没有相关信息，请明确说明，不要编造。\n\n知识库片段如下：\n\nCTX"
    );
}

#[test]
fn stream_messages() {
    assert_eq!(stream_message_action("  [DONE] \n", None, None), StreamAction::Done);
    assert_eq!(
        stream_message_action("[DONE]", Some(Some("x".to_string())), None),
        StreamAction::Done
    );
    assert_eq!(
        stream_message_action("{..}", Some(Some("tok".to_string())), None),
        StreamAction::Token("tok".to_string())
    );
    assert_eq!(stream_message_action("{..}", Some(None), Some("e".to_string())), StreamAction::Ignore);
    assert_eq!(
        stream_message_action("{..}", None, Some("bad key".to_string())),
        StreamAction::Error("bad key".to_string())
    );
    assert_eq!(stream_message_action("garbage", None, None), StreamAction::Ignore);
}

#[test]
fn stream_messages_read_service_errors() {
    assert_eq!(
        classify_stream_message(" {\"error\": {\"message\": \"bad key\", \"code\": 401}} ", None),
        StreamAction::Error("bad key".to_string())
    );
    assert_eq!(classify_stream_message("{\"error\": \"plain\"}", None), StreamAction::Ignore);
    assert_eq!(classify_stream_message("not json", None), StreamAction::Ignore);
    assert_eq!(classify_stream_message("[DONE]", None), StreamAction::Done);
    assert_eq!(
        classify_stream_message("{\"error\": {\"message\": \"x\"}}", Some(None)),
        StreamAction::Ignore
    );
}

#[test]
fn stream_failures() {
    assert_eq!(stream_failure("Transport(UnexpectedEof)"), StreamFailure::EndQuietly);
    assert_eq!(
        stream_failure("timeout"),
        StreamFailure::Fail("流式传输异常: timeout。请检查网络或 API URL 配置。".to_string())
    );
}

#[test]
fn search_keywords_split_trim_and_lowercase() {
    assert_eq!(search_keywords("Rust", ""), vec!["rust".to_string()]);
    assert_eq!(
        search_keywords("  Vector DB ", "Embedding, ONNX ,, Index"),
        vec!["vector db", "embedding", "onnx", "index"]
    );
    assert_eq!(search_keywords("a,b", "C"), vec!["a", "b", "c"]);
    assert!(search_keywords("", "").is_empty());
    assert!(search_keywords(" , ", " ").is_empty());
}

#[test]
fn keyword_hits_count_matches_in_content_or_name() {
    let kws = vec!["rust".to_string(), "notes".to_string(), "python".to_string()];
    assert_eq!(keyword_hits("learning rust today", "Notes.md", &kws), 2);
    assert_eq!(keyword_hits("nothing here", "x.md", &kws), 0);
    assert_eq!(keyword_hits("rust notes python", "a", &kws), 3);
    assert_eq!(keyword_hits("anything", "README", &Vec::new()), 0);
    assert_eq!(keyword_hits("", "RUST.md", &kws), 1);
    for (content, name) in [("rust notes python rust", "notes.md"), ("", ""), ("python", "PYTHON")] {
        assert!(keyword_hits(content, name, &kws) <= kws.len());
    }
}

#[test]
fn search_plans() {
    assert_eq!(search_plan(""), SearchPlan::Nothing);
    assert_eq!(search_plan("  \n"), SearchPlan::Nothing);
    assert_eq!(search_plan("__SUMMARIZE_ALL__"), SearchPlan::RecentChunks);
    assert_eq!(search_plan(" __SUMMARIZE_ALL__"), SearchPlan::Ranked);
    assert_eq!(search_plan("rust"), SearchPlan::Ranked);
    assert!(should_expand_query("rust", true));
    assert!(!should_expand_query("rust", false));
    assert!(!should_expand_query("__SUMMARIZE_ALL__", true));
}

#[test]
fn persona_prompts() {
    let medical = r#"You are a professional "Medical Review Expert". Your task is to answer the user's question based on the provided [Knowledge Base Snippets].
### Rules:
1. **Fact Extraction**: First list the core medical facts from the local documents.
2. **Critical Review**: Actively point out potential limitations in the documents (e.g., lack of control groups, small sample size, side effects). Offer advanced complication warnings or interaction analysis from a medical perspective.
3. If no record is found, explicitly state that it was not found. Use professional medical terminology.
4. **Language Matching**: CRITICAL - You MUST use the EXACT same language as the user's question. If the user asks in English, reply entirely in English. If Chinese, reply in Chinese."#;
    let legal = r#"You are a senior "Legal Compliance Review Expert". Your task is to answer the question based on the provided [Knowledge Base Snippets].
### Rules:
1. **Fact Summarization**: Extract core information from contracts, terms, or bills.
2. **Risk Insight**: Keenly point out possible legal risks, breach hazards, or loopholes in exemption clauses. Proactively warn of potential compliance issues.
3. Maintain a rigorous and objective legal counsel style.
4. **Language Matching**: CRITICAL - You MUST use the EXACT same language as the user's question. If the user asks in English, reply entirely in English. If Chinese, reply in Chinese."#;
    let coder = r#"You are a "Senior System Architect". Your task is to answer the question based on the provided [Codebase/Technical Document Snippets].
### Rules:
1. **Technical Analysis**: Quickly summarize the code logic or architectural intent.
2. **Architectural Review**: Point out potential performance bottlenecks, security vulnerabilities, design flaws, or refactoring suggestions. Provide a higher architectural perspective.
3. Give specific and elegant code improvement suggestions.
4. **Language Matching**: CRITICAL - You MUST use the EXACT same language as the user's question. If the user asks in English, reply entirely in English. If Chinese, reply in Chinese."#;
    let archivist = r#"You are a professional "Knowledge Archive Analyst". Your task is to answer the user's question based on the provided [Knowledge Base Snippets].
### Rules:
1. **Fact First**: Answer ONLY based on the snippet content. If not mentioned in the snippets, straightforwardly reply "Based on the existing local archives, no relevant records were found."
2. **Structured Output**: Use `##` titles to divide modules, and use `-` lists to organize key points. Highlight key data in bold.
3. Language style: Professional, rigorous, and objective.
4. **Language Matching**: CRITICAL - You MUST respond entirely in the EXACT SAME LANGUAGE as the user's prompt. If the prompt is in English, output English headings and body text. If Chinese, output Chinese."#;
    assert_eq!(persona_system_prompt(Some("medical".to_string())), medical);
    assert_eq!(persona_system_prompt(Some("legal".to_string())), legal);
    assert_eq!(persona_system_prompt(Some("coder".to_string())), coder);
    assert_eq!(persona_system_prompt(Some("default".to_string())), archivist);
    assert_eq!(persona_system_prompt(Some("Medical".to_string())), archivist);
    assert_eq!(persona_system_prompt(None), archivist);
    assert_eq!(rag_user_query("__SUMMARIZE_ALL__"), SUMMARY_REQUEST);
    assert_eq!(rag_user_query("what is rust"), "what is rust");
}

#[test]
fn sources_are_capped_at_five() {
    let mut v: Vec<u32> = (1..=8).collect();
    assert_eq!(keep_top_sources(&mut v), Ok(()));
    assert_eq!(v, vec![1, 2, 3, 4, 5]);
    let mut w: Vec<u32> = vec![7, 8];
    assert_eq!(keep_top_sources(&mut w), Ok(()));
    assert_eq!(w, vec![7, 8]);
    let mut e: Vec<u32> = Vec::new();
    assert_eq!(keep_top_sources(&mut e), Err("知识库中未找到相关内容".to_string()));
}

fn snippets() -> Vec<Snippet> {
    vec![
        Snippet { file_name: "a.md".to_string(), content: "alpha".to_string() },
        Snippet { file_name: "b.pdf".to_string(), content: "beta".to_string() },
    ]
}

#[test]
fn contexts_number_the_snippets() {
    assert_eq!(
        rag_context(&snippets()),
        "[Snippet 1] (From: a.md)\nalpha\n\n[Snippet 2] (From: b.pdf)\nbeta\n\n"
    );
    assert_eq!(
        chat_context(&snippets()),
        "【片段 1】(来自: a.md)\nalpha\n\n【片段 2】(来自: b.pdf)\nbeta\n\n"
    );
    assert_eq!(rag_context(&Vec::new()), "");
    let many: Vec<Snippet> = (0..12)
        .map(|i| Snippet { file_name: format!("f{}", i), content: String::new() })
        .collect();
    let text = rag_context(&many);
    assert!(text.ends_with("[Snippet 12] (From: f11)\n\n\n"));
}

#[test]
fn opening_files_inside_the_watched_folder_only() {
    let ok = authorize_open(
        "notes/a.md",
        Ok("/vault/notes/a.md".to_string()),
        Some(("/vault".to_string(), Ok("/vault".to_string()))),
    );
    assert_eq!(ok, Ok(()));
    let outside = authorize_open(
        "/etc/passwd",
        Ok("/etc/passwd".to_string()),
        Some(("/vault".to_string(), Ok("/vault".to_string()))),
    );
    assert_eq!(
        outside,
        Err("安全错误: 路径 '/etc/passwd' 不在监控目录 '/vault' 之下".to_string())
    );
    // Whole components are compared: "/vault2" is not inside "/vault".
    let sibling = authorize_open(
        "/vault2/x",
        Ok("/vault2/x".to_string()),
        Some(("/vault".to_string(), Ok("/vault".to_string()))),
    );
    assert!(sibling.is_err());
    assert_eq!(
        authorize_open("x", Err("No such file".to_string()), None),
        Err("无法解析路径 'x': No such file".to_string())
    );
    assert_eq!(
        authorize_open("x", Ok("/x".to_string()), None),
        Err("尚未设置监控目录，无法打开文件".to_string())
    );
    assert_eq!(
        authorize_open("x", Ok("/x".to_string()), Some(("w".to_string(), Err("gone".to_string())))),
        Err("无法解析监控路径 'w': gone".to_string())
    );
    assert_eq!(open_verdict("p", "w", true), Ok(()));
}

#[test]
fn search_requests() {
    let q = |limit| SearchQuery { q: "x".to_string(), expanded_q: None, limit };
    assert_eq!(q(None).result_limit(), 20);
    assert_eq!(q(Some(5)).result_limit(), 5);
    assert_eq!(q(Some(100)).result_limit(), 100);
    assert_eq!(q(Some(1000)).result_limit(), 100);
    assert_eq!(check_query(" "), Err("Query cannot be empty".to_string()));
    assert_eq!(check_query("rust"), Ok(()));
    let mut v = vec![1, 2, 3, 4];
    assert_eq!(take_page(&mut v, 2), 4);
    assert_eq!(v, vec![1, 2]);
    let mut w = vec![1];
    assert_eq!(take_page(&mut w, 20), 1);
    assert_eq!(w, vec![1]);
}

#[test]
fn batch_results() {
    let r = BatchProcessor::library_result(
        "/lib".to_string(),
        &vec!["one".to_string(), "two".to_string(), "three".to_string()],
    );
    assert_eq!(r.library_path, "/lib");
    assert_eq!(r.content, "one\ntwo\nthree");
    assert_eq!(BatchProcessor::library_result("/e".to_string(), &Vec::new()).content, "");
    let a = BatchResult { library_path: "a".to_string(), content: "x".to_string() };
    let b = BatchResult { library_path: "b".to_string(), content: "y".to_string() };
    assert_eq!(
        BatchProcessor::collect_results(vec![
            LibraryOutcome::Found(a.clone()),
            LibraryOutcome::Found(b.clone())
        ]),
        Ok(vec![a.clone(), b.clone()])
    );
    assert_eq!(
        BatchProcessor::collect_results(vec![
            LibraryOutcome::Found(a.clone()),
            LibraryOutcome::Failed("db locked".to_string()),
            LibraryOutcome::Aborted("panic".to_string())
        ]),
        Err("库处理失败: db locked".to_string())
    );
    assert_eq!(
        BatchProcessor::collect_results(vec![LibraryOutcome::Aborted("cancelled".to_string())]),
        Err("任务调度失败: cancelled".to_string())
    );
}

#[test]
fn test_batch_processor_success() {
    assert_eq!(BatchProcessor::collect_results(Vec::new()), Ok(Vec::new()));
    assert!(true);
}

#[test]
fn workbook_and_document_markdown() {
    let sheets = vec![
        SheetData {
            name: "People".to_string(),
            rows: Some(vec![
                vec!["name".to_string(), "age".to_string()],
                vec!["Ann".to_string(), "31".to_string()],
            ]),
        },
        SheetData { name: "Broken".to_string(), rows: None },
        SheetData { name: "Empty".to_string(), rows: Some(Vec::new()) },
    ];
    assert_eq!(
        Parser::workbook_markdown(&sheets),
        "# Sheet: People\n\n|  name | age |\n|  --- | --- |\n|  Ann | 31 |\n\n\n# Sheet: Broken\n\n\n\n# Sheet: Empty\n\n| \n\n"
    );
    assert_eq!(
        Parser::docx_markdown(&vec!["P1".to_string(), "P2".to_string()]),
        "P1\n\nP2\n\n"
    );
    assert_eq!(
        Parser::docx_from_reader(Err("invalid Zip archive".to_string())),
        Err("invalid Zip archive".to_string())
    );
    assert_eq!(
        Parser::docx_from_reader(Ok(vec!["A".to_string(), "B".to_string()])),
        Ok("A\n\nB\n\n".to_string())
    );
    assert_eq!(Parser::docx_from_reader(Ok(Vec::new())), Ok(String::new()));
}

#[test]
fn text_helpers() {
    assert!(is_blank(" \t\n"));
    assert!(!is_blank(" a "));
    assert_eq!(trimmed("\u{3000} key \n"), "key");
    assert!(same_text("abc", "abc"));
    assert!(!same_text("abc", "abd"));
    let mut s = String::new();
    push_decimal(&mut s, 0);
    push_decimal(&mut s, 1234567890);
    assert_eq!(s, "01234567890");
}

#[test]
fn docx_text_follows_the_body() {
    let mut buf = std::io::Cursor::new(Vec::new());
    docx_rs::Docx::new()
        .add_paragraph(docx_rs::Paragraph::new().add_run(docx_rs::Run::new().add_text("Hello")))
        .add_paragraph(docx_rs::Paragraph::new().add_run(docx_rs::Run::new().add_text("World")))
        .build()
        .pack(&mut buf)
        .unwrap();
    let bytes = buf.into_inner();
    let read = docx_rs::read_docx(&bytes)
        .map(|d| d.document.children.iter().map(|c| format!("{:?}", c)).collect::<Vec<String>>())
        .map_err(|e| e.to_string());
    let text = Parser::docx_from_reader(read).unwrap();
    let hello = text.find("Hello").unwrap();
    let world = text.find("World").unwrap();
    assert!(hello < world);
    assert!(text.ends_with("\n\n"));
    assert_eq!(text.matches("\n\n").count(), 2);
}

#[test]
fn contents_follow_the_ranking() {
    let ids = vec!["c2".to_string(), "c9".to_string(), "c1".to_string(), "c2".to_string()];
    let rows = vec![
        ("c1".to_string(), "first".to_string()),
        ("c2".to_string(), "old".to_string()),
        ("c2".to_string(), "second".to_string()),
    ];
    assert_eq!(
        contents_by_id(&ids, &rows),
        vec!["second".to_string(), String::new(), "first".to_string(), String::new()]
    );
    assert!(contents_by_id(&Vec::new(), &rows).is_empty());
}

#[test]
fn expansion_reply_reads_the_first_choice() {
    let body = r#"{"choices":[{"message":{"role":"assistant","content":"团队, 效率, 管理"}}]}"#;
    assert_eq!(expansion_reply(body.as_bytes()), Ok("团队, 效率, 管理".to_string()));
    assert_eq!(expansion_reply(br#"{"choices":[]}"#), Ok(String::new()));
    assert_eq!(expansion_reply(br#"{"choices":[{"message":{"content":7}}]}"#), Ok(String::new()));
    assert_eq!(expansion_reply(b"{}"), Ok(String::new()));
    assert_eq!(expansion_reply(b"not json"), Err("error decoding response body".to_string()));
    // A byte-order mark is not JSON.
    assert_eq!(
        expansion_reply(b"\xEF\xBB\xBF{}"),
        Err("error decoding response body".to_string())
    );
}

#[test]
fn a_file_is_committed_only_when_every_chunk_is_stored() {
    assert_eq!(transaction_end(true, true, 3, &vec![ChunkResult::Stored, ChunkResult::Stored, ChunkResult::Stored]), TransactionEnd::Commit);
    assert_eq!(transaction_end(true, true, 3, &vec![ChunkResult::Stored, ChunkResult::NotEmbedded, ChunkResult::Stored]), TransactionEnd::Rollback);
    assert_eq!(transaction_end(true, true, 2, &vec![ChunkResult::NotStored, ChunkResult::Stored]), TransactionEnd::Rollback);
    assert_eq!(transaction_end(true, true, 3, &vec![ChunkResult::Stored, ChunkResult::Stored]), TransactionEnd::Rollback);
    assert_eq!(transaction_end(false, true, 1, &vec![ChunkResult::Stored]), TransactionEnd::Rollback);
    assert_eq!(transaction_end(true, false, 1, &vec![ChunkResult::Stored]), TransactionEnd::Rollback);
    assert_eq!(transaction_end(true, true, 0, &Vec::new()), TransactionEnd::Commit);
}

#[test]
fn a_chat_always_ends_with_done() {
    let r = closing_events(ChatOutcome::NoKey);
    assert_eq!(r.len(), 2);
    assert!(matches!(&r[0], ChatEvent::Token(t) if t == LOCAL_MODE_REPLY));
    assert!(matches!(r[1], ChatEvent::Done));
    assert_eq!(
        LOCAL_MODE_REPLY,
        "**[本地检索模式]**\n\n知识库检索完成。如需 AI 总结，请设置 API Key。"
    );
    let r = closing_events(ChatOutcome::Replied);
    assert_eq!(r.len(), 1);
    assert!(matches!(r[0], ChatEvent::Done));
    let r = closing_events(ChatOutcome::Failed("boom".to_string()));
    assert_eq!(r.len(), 2);
    assert!(matches!(&r[0], ChatEvent::Error(m) if m == "boom"));
    assert!(matches!(r[1], ChatEvent::Done));
}
