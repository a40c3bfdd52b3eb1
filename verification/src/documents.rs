//! Per-format text handling: which files are indexed, how their kind is
//! told, the text of a Word body and the table text of a sheet.

use vstd::prelude::*;
use vstd::string::StringExecFns;
use crate::text::{chars_of, push_char, push_wrapped, concat_wrapped, texts, same_text};

verus! {

/// The text of an XML document without its markup: the state is the text
/// so far and whether a tag is open. `<` opens a tag, `>` closes one, and
/// neither is kept; other characters are kept outside tags.
pub open spec fn xml_text_state(xml: Seq<char>) -> (Seq<char>, bool)
    decreases xml.len(),
{
    if xml.len() == 0 {
        (Seq::empty(), false)
    } else {
        let st = xml_text_state(xml.drop_last());
        let c = xml.last();
        if c == '<' {
            (st.0, true)
        } else if c == '>' {
            (st.0, false)
        } else if !st.1 {
            (st.0.push(c), st.1)
        } else {
            st
        }
    }
}

/// The text of a Word document body (`word/document.xml`) without its tags.
pub fn strip_xml_tags(xml: &str) -> (text: String)
    ensures
        text@ == xml_text_state(xml@).0,
{
    let chars = chars_of(xml);
    let mut text = String::new();
    let mut in_tag = false;
    let mut i: usize = 0;
    while i < chars.len()
        invariant
            chars@ == xml@,
            i <= chars@.len(),
            (text@, in_tag) == xml_text_state(chars@.take(i as int)),
        decreases chars.len() - i,
    {
        let c = chars[i];
        assert(chars@.take(i + 1).drop_last() =~= chars@.take(i as int));
        if c == '<' {
            in_tag = true;
        } else if c == '>' {
            in_tag = false;
        } else if !in_tag {
            push_char(&mut text, c);
        }
        i = i + 1;
    }
    assert(chars@.take(chars@.len() as int) =~= chars@);
    text
}

/// How the text of a file is extracted, by its extension.
#[derive(Debug, Clone, Copy, PartialEq, Eq)]
pub enum DocumentKind {
    Pdf,
    Docx,
    Xlsx,
    PlainText,
}

/// The kind of a file with extension `ext` (without the dot): `pdf`, `docx`
/// and `xlsx` have their own extraction; anything else is read as text.
pub fn document_kind(ext: &str) -> (k: DocumentKind)
    ensures
        ext@ == "pdf"@ ==> k == DocumentKind::Pdf,
        ext@ == "docx"@ ==> k == DocumentKind::Docx,
        ext@ == "xlsx"@ ==> k == DocumentKind::Xlsx,
        ext@ != "pdf"@ && ext@ != "docx"@ && ext@ != "xlsx"@ ==> k == DocumentKind::PlainText,
{
    proof {
        reveal_strlit("pdf");
        reveal_strlit("docx");
        reveal_strlit("xlsx");
        assert("pdf"@.len() != "docx"@.len());
        assert("pdf"@.len() != "xlsx"@.len());
        assert("docx"@[0] != "xlsx"@[0]);
    }
    if same_text(ext, "pdf") {
        DocumentKind::Pdf
    } else if same_text(ext, "docx") {
        DocumentKind::Docx
    } else if same_text(ext, "xlsx") {
        DocumentKind::Xlsx
    } else {
        DocumentKind::PlainText
    }
}

/// The extensions that are indexed.
pub open spec fn indexable_ext(ext: Seq<char>) -> bool {
    ext == "md"@ || ext == "pdf"@ || ext == "txt"@ || ext == "docx"@ || ext == "xlsx"@
}

/// Whether files with extension `ext` are indexed (Markdown, PDF, text, Word, Excel).
pub fn is_indexable_extension(ext: &str) -> (b: bool)
    ensures
        b == indexable_ext(ext@),
{
    same_text(ext, "md") || same_text(ext, "pdf") || same_text(ext, "txt") || same_text(ext, "docx")
        || same_text(ext, "xlsx")
}

/// The rows of a sheet as table lines: `"| "`, then each cell followed by
/// `" | "`, then a line break.
pub open spec fn table_lines(rows: Seq<Seq<Seq<char>>>) -> Seq<char>
    decreases rows.len(),
{
    if rows.len() == 0 {
        Seq::empty()
    } else {
        table_lines(rows.drop_last()) + "| "@ + concat_wrapped(rows.last(), Seq::empty(), " | "@)
            + "\n"@
    }
}

/// The character sequences of the cells of each row.
pub open spec fn row_texts(rows: Seq<Vec<String>>) -> Seq<Seq<Seq<char>>> {
    Seq::new(rows.len(), |i: int| texts(rows[i]@))
}

/// The first sheet of a workbook as text, from its cells (each already
/// written as text).
pub fn sheet_table(rows: &Vec<Vec<String>>) -> (text: String)
    ensures
        text@ == table_lines(row_texts(rows@)),
{
    let ghost rv = row_texts(rows@);
    let mut text = String::new();
    let mut i: usize = 0;
    assert(rv.take(0) =~= Seq::<Seq<Seq<char>>>::empty());
    while i < rows.len()
        invariant
            rv == row_texts(rows@),
            i <= rows@.len(),
            text@ == table_lines(rv.take(i as int)),
        decreases rows.len() - i,
    {
        text.append("| ");
        push_wrapped(&mut text, &rows[i], "", " | ");
        text.append("\n");
        assert(rv.take(i + 1).drop_last() =~= rv.take(i as int));
        assert(rv[i as int] == texts(rows@[i as int]@));
        proof {
            reveal_strlit("");
        }
        assert(""@ =~= Seq::<char>::empty());
        i = i + 1;
    }
    assert(rv.take(rows@.len() as int) =~= rv);
    text
}

} // verus!
