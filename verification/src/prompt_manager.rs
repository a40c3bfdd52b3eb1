//! Named persona templates for the chat assistant.

use vstd::prelude::*;
use crate::text::same_text;

verus! {

/// A persona: display name, system prompt and a short description.
#[derive(Debug, Clone, PartialEq, Eq)]
pub struct PromptTemplate {
    pub name: String,
    pub system_prompt: String,
    pub description: String,
}

/// The persona templates, each under its own key.
pub struct PromptManager {
    pub templates: Vec<(String, PromptTemplate)>,
}

/// The template stored under `key` in `entries` (the first one, when a key repeats).
pub open spec fn template_for(entries: Seq<(String, PromptTemplate)>, key: Seq<char>) -> Option<
    PromptTemplate,
>
    decreases entries.len(),
{
    if entries.len() == 0 {
        None
    } else if entries[0].0@ == key {
        Some(entries[0].1)
    } else {
        template_for(entries.drop_first(), key)
    }
}

/// No key is stored twice.
pub open spec fn keys_distinct(entries: Seq<(String, PromptTemplate)>) -> bool {
    forall|i: int, j: int|
        0 <= i < j < entries.len() ==> #[trigger] entries[i].0@ != #[trigger] entries[j].0@
}

/// The template `t` has these three texts.
pub open spec fn template_is(
    t: PromptTemplate,
    name: Seq<char>,
    system_prompt: Seq<char>,
    description: Seq<char>,
) -> bool {
    t.name@ == name && t.system_prompt@ == system_prompt && t.description@ == description
}

impl PromptManager {
    /// The built-in personas: the general assistant under `default` and the
    /// legal expert under `legal`.
    pub fn new() -> (m: Self)
        ensures
            m.templates@.len() == 2,
            keys_distinct(m.templates@),
            template_for(m.templates@, "default"@) matches Some(t) && template_is(
                t,
                "默认助手"@,
                "你是一个专业的知识库助手。请根据提供的本地知识库片段来回答用户的问题。"@,
                "通用问答模式"@,
            ),
            template_for(m.templates@, "legal"@) matches Some(t) && template_is(
                t,
                "法务专家"@,
                "你是一位资深法务专家。请结合知识库，从合规、风险控制和法律条款的角度严谨回答问题。"@,
                "合同审核与合规建议"@,
            ),
    {
        let mut templates: Vec<(String, PromptTemplate)> = Vec::new();
        templates.push(
            (
                "default".to_owned(),
                PromptTemplate {
                    name: "默认助手".to_owned(),
                    system_prompt: "你是一个专业的知识库助手。请根据提供的本地知识库片段来回答用户的问题。".to_owned(),
                    description: "通用问答模式".to_owned(),
                },
            ),
        );
        templates.push(
            (
                "legal".to_owned(),
                PromptTemplate {
                    name: "法务专家".to_owned(),
                    system_prompt: "你是一位资深法务专家。请结合知识库，从合规、风险控制和法律条款的角度严谨回答问题。".to_owned(),
                    description: "合同审核与合规建议".to_owned(),
                },
            ),
        );
        proof {
            reveal_strlit("default");
            reveal_strlit("legal");
            assert(templates@[0].0@ != templates@[1].0@) by {
                assert(templates@[0].0@[0] != templates@[1].0@[0]);
            }
            let d = templates@.drop_first();
            assert(d[0] == templates@[1]);
            assert(template_for(d, "legal"@) == Some(templates@[1].1));
        }
        PromptManager { templates }
    }

    /// The template stored under `key`, if any.
    pub fn get(&self, key: &str) -> (r: Option<&PromptTemplate>)
        ensures
            r matches Some(t) ==> template_for(self.templates@, key@) == Some(*t),
            r is None ==> template_for(self.templates@, key@) is None,
    {
        let n = self.templates.len();
        let mut i: usize = 0;
        assert(self.templates@.skip(0) =~= self.templates@);
        while i < n
            invariant
                n == self.templates@.len(),
                i <= n,
                template_for(self.templates@, key@) == template_for(
                    self.templates@.skip(i as int),
                    key@,
                ),
            decreases n - i,
        {
            let entry = &self.templates[i];
            assert(self.templates@.skip(i as int)[0] == self.templates@[i as int]);
            if same_text(entry.0.as_str(), key) {
                return Some(&entry.1);
            }
            assert(self.templates@.skip(i as int).drop_first() =~= self.templates@.skip(i + 1));
            i = i + 1;
        }
        None
    }
}

} // verus!
