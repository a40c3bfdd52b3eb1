//! Application settings and how stored values override the defaults.

use vstd::prelude::*;
use crate::state::{DEFAULT_API_URL, DEFAULT_MODEL};

verus! {

/// The application's settings.
#[derive(Debug, Clone, PartialEq, Eq)]
pub struct AppConfig {
    pub api_key: Option<String>,
    pub api_url: Option<String>,
    pub model: Option<String>,
    pub watch_path: Option<String>,
    pub embedding_model_path: Option<String>,
    pub tokenizer_path: Option<String>,
}

/// `o` holds the text `t`.
pub open spec fn holds_text(o: Option<String>, t: Seq<char>) -> bool {
    o matches Some(s) && s@ == t
}

impl Default for AppConfig {
    /// No key, the default endpoint and model, nothing watched, no local model paths.
    fn default() -> (c: Self)
        ensures
            c.api_key is None,
            holds_text(c.api_url, DEFAULT_API_URL@),
            holds_text(c.model, DEFAULT_MODEL@),
            c.watch_path is None,
            c.embedding_model_path is None,
            c.tokenizer_path is None,
    {
        AppConfig {
            api_key: None,
            api_url: Some(DEFAULT_API_URL.to_owned()),
            model: Some(DEFAULT_MODEL.to_owned()),
            watch_path: None,
            embedding_model_path: None,
            tokenizer_path: None,
        }
    }
}

/// The settings from the values stored under `api_key`, `api_url`, `model`
/// and `watch_path` (`None` where nothing is stored): each stored value
/// replaces its default, the others keep it.
pub fn load_config(
    api_key: Option<String>,
    api_url: Option<String>,
    model: Option<String>,
    watch_path: Option<String>,
) -> (c: AppConfig)
    ensures
        c.api_key == api_key,
        api_url is Some ==> c.api_url == api_url,
        api_url is None ==> holds_text(c.api_url, DEFAULT_API_URL@),
        model is Some ==> c.model == model,
        model is None ==> holds_text(c.model, DEFAULT_MODEL@),
        c.watch_path == watch_path,
        c.embedding_model_path is None,
        c.tokenizer_path is None,
{
    let mut config = AppConfig::default();
    if api_key.is_some() {
        config.api_key = api_key;
    }
    if api_url.is_some() {
        config.api_url = api_url;
    }
    if model.is_some() {
        config.model = model;
    }
    if watch_path.is_some() {
        config.watch_path = watch_path;
    }
    config
}

} // verus!
