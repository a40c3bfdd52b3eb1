use vaultseek::documents::{document_kind, is_indexable_extension, sheet_table, strip_xml_tags, DocumentKind};
use vaultseek::extractor::chunk_text;

fn is_stop(c: char) -> bool {
    matches!(c, '.' | '!' | '?' | ';' | '。' | '！' | '？' | '；' | '…')
}

fn is_wide(c: char) -> bool {
    matches!(c, '。' | '！' | '？' | '；' | '…')
}

/// The sentences of a line, by the rule the library states.
fn model_sentences(line: &[char]) -> Vec<Vec<char>> {
    let mut out = Vec::new();
    let mut cur = Vec::new();
    for (i, &c) in line.iter().enumerate() {
        if i > 0 {
            let p = line[i - 1];
            if is_stop(p) && !is_stop(c) && (is_wide(p) || c.is_whitespace()) {
                out.push(std::mem::take(&mut cur));
            }
        }
        cur.push(c);
    }
    if !cur.is_empty() {
        out.push(cur);
    }
    out
}

fn content_lines(text: &str) -> Vec<Vec<char>> {
    text.lines().map(|l| l.trim()).filter(|l| !l.is_empty()).map(|l| l.chars().collect()).collect()
}

/// The units a line is packed in: the line when it fits, else its sentences.
fn model_units(line: &[char], max_size: usize) -> Vec<Vec<char>> {
    if line.len() <= max_size {
        vec![line.to_vec()]
    } else {
        model_sentences(line)
    }
}

/// A straightforward model of the chunking rules, used as an oracle.
fn model_chunks(text: &str, max_size: usize, overlap: usize) -> Vec<String> {
    let mut chunks = Vec::new();
    let mut current: Vec<char> = Vec::new();
    let close = |cur: &Vec<char>| -> String { cur.iter().collect::<String>().trim().to_string() };
    let tail = |cur: &Vec<char>| -> Vec<char> { cur[cur.len().saturating_sub(overlap)..].to_vec() };
    for line_chars in content_lines(text) {
        if !current.is_empty() && current.len() + line_chars.len() > max_size {
            chunks.push(close(&current));
            current = tail(&current);
            if !current.is_empty() && *current.last().unwrap() != '\n' {
                current.push('\n');
            }
        }
        if line_chars.len() <= max_size {
            current.extend_from_slice(&line_chars);
        } else {
            for (k, s) in model_sentences(&line_chars).into_iter().enumerate() {
                if k > 0 && !current.is_empty() && current.len() + s.len() > max_size {
                    chunks.push(close(&current));
                    current = tail(&current);
                }
                current.extend_from_slice(&s);
            }
        }
        current.push('\n');
    }
    let last = close(&current);
    if !last.is_empty() {
        chunks.push(last);
    }
    chunks
}

fn sample_texts() -> Vec<String> {
    vec![
        "".to_string(),
        "   \n\t \n".to_string(),
        "hello".to_string(),
        "hello\nworld".to_string(),
        "  first line  \r\n\r\n second line\n third\n".to_string(),
        "abcdefghijklmnopqrstuvwxyz".to_string(),
        "short\nabcdefghijklmnopqrstuvwxyz0123456789\nend".to_string(),
        "ab      cd\nef gh ij kl mn\n".to_string(),
        "知识库检索\n语义切割引擎确保完整上下文\n第三行".to_string(),
        "one two three four five six seven eight nine ten\neleven twelve\nthirteen".to_string(),
        "a\nb\nc\nd\ne\nf\ng\nh\ni\nj".to_string(),
        "x\u{3000}y\u{2003}\nz\u{a0}\n".to_string(),
        "First sentence. Second one! Third? Fourth; fifth\u{2026}sixth. End".to_string(),
        "Mr. Smith paid 3.50 today. He left.\nShort.".to_string(),
        "第一句。第二句！第三句？第四句；最后……完".to_string(),
        "Wait... what?! Yes.  Two  spaces.".to_string(),
    ]
}

#[test]
fn chunk_text_matches_the_rules_on_samples() {
    for text in sample_texts() {
        for max_size in 0..40usize {
            for overlap in 0..15usize {
                assert_eq!(
                    chunk_text(&text, max_size, overlap),
                    model_chunks(&text, max_size, overlap),
                    "text {:?} max {} overlap {}",
                    text,
                    max_size,
                    overlap
                );
            }
        }
        assert_eq!(chunk_text(&text, 500, 50), model_chunks(&text, 500, 50));
    }
}

#[test]
fn chunk_text_packs_short_lines_into_one_chunk() {
    assert_eq!(chunk_text("hello\nworld", 500, 50), vec!["hello\nworld".to_string()]);
    assert_eq!(
        chunk_text("  alpha  \n\n\n  beta \n", 500, 50),
        vec!["alpha\nbeta".to_string()]
    );
}

#[test]
fn chunk_text_closes_a_chunk_before_an_overflowing_line() {
    // "aaaa\n" holds 5 characters; adding "bbbb" would exceed 8.
    assert_eq!(
        chunk_text("aaaa\nbbbb\ncccc", 8, 0),
        vec!["aaaa".to_string(), "bbbb".to_string(), "cccc".to_string()]
    );
    // With an overlap of 2, each chunk starts with the last two characters
    // of the previous one ("a\n" then "b\n").
    assert_eq!(
        chunk_text("aaaa\nbbbb\ncccc", 8, 2),
        vec!["aaaa".to_string(), "a\nbbbb".to_string(), "b\ncccc".to_string()]
    );
}

#[test]
fn chunk_text_splits_long_lines_at_sentences() {
    assert_eq!(
        chunk_text("One. Two. Three.", 8, 0),
        vec!["One.".to_string(), "Two.".to_string(), "Three.".to_string()]
    );
    assert_eq!(
        chunk_text("One. Two. Three.", 8, 2),
        vec!["One.".to_string(), "e. Two.".to_string(), "o. Three.".to_string()]
    );
    assert_eq!(
        chunk_text("第一句。第二句！第三句", 5, 0),
        vec!["第一句。".to_string(), "第二句！".to_string(), "第三句".to_string()]
    );
    // A chunk is closed before a line that would overflow it, long or not.
    assert_eq!(
        chunk_text("ab\nc. dddd", 5, 0),
        vec!["ab".to_string(), "c.".to_string(), "dddd".to_string()]
    );
    // The first sentence of a long line always starts with the carried
    // overlap, so no chunk is only carried text.
    assert_eq!(
        chunk_text("abcd\nxyz. Q.", 4, 3),
        vec!["abcd".to_string(), "cd\nxyz.".to_string(), "yz. Q.".to_string()]
    );
    // Sentences that fit together share a chunk.
    assert_eq!(
        chunk_text("A b. C d. E f.", 10, 0),
        vec!["A b. C d.".to_string(), "E f.".to_string()]
    );
}

#[test]
fn chunk_text_never_cuts_inside_a_sentence() {
    // A long line without a sentence break stays whole.
    assert_eq!(chunk_text("abcdefghij", 4, 0), vec!["abcdefghij".to_string()]);
    assert_eq!(chunk_text("abcdefghij", 4, 1), vec!["abcdefghij".to_string()]);
    // A stop inside a number or word is no sentence break.
    assert_eq!(
        chunk_text("Pi is 3.14 and e is 2.71", 10, 0),
        vec!["Pi is 3.14 and e is 2.71".to_string()]
    );
    // Any limits terminate, even a zero size with a large overlap.
    assert_eq!(
        chunk_text("Go. Now.", 0, 9),
        vec!["Go.".to_string(), "Go. Now.".to_string()]
    );
}

#[test]
fn chunk_text_of_blank_text_is_empty() {
    assert!(chunk_text("", 500, 50).is_empty());
    assert!(chunk_text(" \n\t\r\n\u{3000}", 500, 50).is_empty());
    // Any limits are fine when there is no line at all.
    assert!(chunk_text("   ", 0, 7).is_empty());
}

#[test]
fn chunks_are_trimmed() {
    for text in sample_texts() {
        for (max, overlap) in [(3, 1), (5, 2), (8, 3), (500, 50)] {
            for chunk in chunk_text(&text, max, overlap) {
                assert_eq!(chunk.trim(), chunk.as_str());
            }
        }
    }
}

fn units_fit(text: &str, max: usize) -> bool {
    content_lines(text).iter().all(|l| model_units(l, max).iter().all(|u| u.len() <= max))
}

#[test]
fn chunks_fit_without_overlap() {
    for text in sample_texts() {
        for max in 1..40usize {
            if units_fit(&text, max) {
                for chunk in chunk_text(&text, max, 0) {
                    assert!(chunk.chars().count() <= max, "{:?} over {}", chunk, max);
                }
            }
        }
    }
}

#[test]
fn chunks_stay_within_size_and_overlap() {
    for text in sample_texts() {
        for max in 1..40usize {
            if units_fit(&text, max) {
                for overlap in 0..12 {
                    for chunk in chunk_text(&text, max, overlap) {
                        assert!(chunk.chars().count() <= max + overlap);
                    }
                }
            }
        }
    }
    // A chunk may hold the carried overlap and a whole line.
    assert_eq!(
        chunk_text("abcde\nfghij", 5, 4),
        vec!["abcde".to_string(), "cde\nfghij".to_string()]
    );
}

#[test]
fn sentences_stay_whole() {
    for text in sample_texts() {
        for max in 0..30usize {
            for overlap in [0, 1, 3, 50] {
                let chunks = chunk_text(&text, max, overlap);
                for line in content_lines(&text) {
                    for unit in model_units(&line, max) {
                        let unit: String = unit.iter().collect();
                        let unit = unit.trim();
                        assert!(
                            chunks.iter().any(|c| c.contains(unit)),
                            "{:?} cut in {:?} (max {}, overlap {})",
                            unit,
                            chunks,
                            max,
                            overlap
                        );
                    }
                }
            }
        }
    }
}

#[test]
fn sentences_rejoin_to_the_line() {
    for text in sample_texts() {
        for line in content_lines(&text) {
            let joined: Vec<char> = model_sentences(&line).concat();
            assert_eq!(joined, line);
        }
    }
    let line: Vec<char> = "Hi. Ok!Yes? No…再见。好".chars().collect();
    let parts: Vec<String> = model_sentences(&line).iter().map(|s| s.iter().collect()).collect();
    assert_eq!(parts, vec!["Hi.", " Ok!Yes?", " No…", "再见。", "好"]);
}

#[test]
fn chunks_keep_lines_without_overlap() {
    let text = "  one \n two three\n\nfour five six\nseven";
    let lines: Vec<&str> = text.lines().map(|l| l.trim()).filter(|l| !l.is_empty()).collect();
    for max in 13..20usize {
        let chunks = chunk_text(text, max, 0);
        assert_eq!(chunks.join("\n"), lines.join("\n"));
    }
    assert_eq!(
        chunk_text(text, 13, 0),
        vec!["one\ntwo three".to_string(), "four five six".to_string(), "seven".to_string()]
    );
}

#[test]
fn lines_stay_whole_when_they_fit() {
    for text in sample_texts() {
        let lines: Vec<&str> = text.lines().map(|l| l.trim()).filter(|l| !l.is_empty()).collect();
        let longest = lines.iter().map(|l| l.chars().count()).max().unwrap_or(0);
        for max in longest.max(1)..longest + 6 {
            for overlap in [0, 1, 3, 50] {
                let chunks = chunk_text(&text, max, overlap);
                for line in &lines {
                    assert!(chunks.iter().any(|c| c.contains(line)), "{:?} lost in {:?}", line, chunks);
                }
            }
        }
    }
}

#[test]
fn chunk_text_large_overlap_without_long_lines() {
    // The overlap may exceed the chunk size when every line fits.
    assert_eq!(
        chunk_text("ab\ncd\nef", 3, 10),
        vec!["ab".to_string(), "ab\ncd".to_string(), "ab\ncd\nef".to_string()]
    );
}

#[test]
fn strip_xml_tags_keeps_text_outside_tags() {
    let xml = "<w:document><w:body><w:p><w:r><w:t>Hello</w:t></w:r></w:p><w:p><w:t xml:space=\"preserve\"> World</w:t></w:p></w:body></w:document>";
    assert_eq!(strip_xml_tags(xml), "Hello World");
    assert_eq!(strip_xml_tags("a>b<c>d"), "abd");
    assert_eq!(strip_xml_tags("plain"), "plain");
    assert_eq!(strip_xml_tags("<open"), "");
    assert_eq!(strip_xml_tags(""), "");
}

#[test]
fn document_kinds_by_extension() {
    assert_eq!(document_kind("pdf"), DocumentKind::Pdf);
    assert_eq!(document_kind("docx"), DocumentKind::Docx);
    assert_eq!(document_kind("xlsx"), DocumentKind::Xlsx);
    assert_eq!(document_kind("md"), DocumentKind::PlainText);
    assert_eq!(document_kind("PDF"), DocumentKind::PlainText);
    assert_eq!(document_kind(""), DocumentKind::PlainText);
}

#[test]
fn indexable_extensions() {
    for ext in ["md", "pdf", "txt", "docx", "xlsx"] {
        assert!(is_indexable_extension(ext));
    }
    for ext in ["", "doc", "xls", "MD", "png", "markdown"] {
        assert!(!is_indexable_extension(ext));
    }
}

#[test]
fn sheet_table_writes_rows() {
    let rows = vec![
        vec!["String(\"name\")".to_string(), "String(\"age\")".to_string()],
        vec!["String(\"Ann\")".to_string(), "Float(31.0)".to_string()],
    ];
    assert_eq!(
        sheet_table(&rows),
        "| String(\"name\") | String(\"age\") | \n| String(\"Ann\") | Float(31.0) | \n"
    );
    assert_eq!(sheet_table(&Vec::new()), "");
    assert_eq!(sheet_table(&vec![Vec::new()]), "| \n");
}

fn ink(s: &str) -> String {
    s.chars().filter(|c| !c.is_whitespace()).collect()
}

#[test]
fn no_text_is_lost_without_overlap() {
    for text in sample_texts() {
        for max in 0..30usize {
            let chunks = chunk_text(&text, max, 0);
            let read: String = chunks.iter().map(|c| ink(c)).collect();
            assert_eq!(read, ink(&text), "max {}", max);
        }
    }
    assert_eq!(
        chunk_text("Alpha beta. Gamma delta.\nEnd", 12, 0),
        vec!["Alpha beta.".to_string(), "Gamma delta.".to_string(), "End".to_string()]
    );
}

#[test]
fn text_with_content_gives_chunks() {
    for text in sample_texts() {
        if !text.trim().is_empty() {
            for max in 0..10usize {
                for overlap in [0, 2, 20] {
                    assert!(!chunk_text(&text, max, overlap).is_empty());
                }
            }
        }
    }
}

#[test]
fn no_chunk_is_empty() {
    for text in sample_texts() {
        for max in 0..20usize {
            for overlap in [0, 1, 4, 30] {
                for chunk in chunk_text(&text, max, overlap) {
                    assert!(!chunk.is_empty());
                }
            }
        }
    }
    assert_eq!(chunk_text(" . \n x", 1, 3), vec![".".to_string(), ".\nx".to_string()]);
}

#[test]
fn never_more_chunks_than_lines_and_sentences() {
    for text in sample_texts() {
        for max in 0..25usize {
            let units: usize = content_lines(&text).iter().map(|l| model_units(l, max).len()).sum();
            for overlap in [0, 2, 9] {
                assert!(chunk_text(&text, max, overlap).len() <= units);
            }
        }
    }
}
