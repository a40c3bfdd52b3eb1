# vaultseek

The core of a local-first semantic search engine for personal knowledge
bases (Markdown, PDF, Word, Excel and text files), written in Verus.

`src/` is the verified library. Its functions carry contracts that Verus
proves, with five exceptions: the small wrappers `push_char`, `to_lowercase`,
`path_has_prefix`, `read_error_message` and `read_reply_content` (around
`String::push`, `str::to_lowercase`, `Path::starts_with` and two reads with
`serde_json`) are marked `external_body`, so their contracts are believed,
not proved. Each says in its doc comment what it claims of the code it calls.

- `extractor` — splitting document text into overlapping chunks for
  embedding, at line and sentence boundaries, with the laws the chunking
  keeps (chunks are trimmed and never empty, blank text gives none and other text at least
  one, size and count bounds, no line or sentence is ever cut, sentences rejoin to
  their line, and without overlap no text is lost or repeated).
- `documents` — which files are indexed, the text of a Word body, the table
  text of a sheet.
- `parser` — Word and Excel documents as Markdown.
- `db` — the keywords of a search and how many of them a chunk matches; the
  contents handed back for the ranked chunks.
- `llm` — endpoints, prompts, and the handling of the streamed chat reply.
- `commands`, `server` — the decisions behind search, grounded chat and the
  HTTP API (plans, limits, personas, context, which files may be opened).
- `indexer` — how the transaction that re-indexes a file ends: committed
  only when every write succeeded and every chunk was embedded and stored.
- `config`, `prompt_manager`, `intent`, `batch_processor`, `state` — settings,
  personas, query triage and multi-library search.
- `text` — the character model (Unicode white space, trimming, splitting).

`app/` is the desktop shell around the library: windows, commands, file and
database I/O, the document readers (which may panic on malformed files and
are called where the unwind is caught), the embedding model and the
similarity ranking (floating point), the HTTP server and the network calls.

`tests/` exercise the library on concrete values.
