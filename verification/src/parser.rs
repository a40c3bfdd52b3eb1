//! Word and Excel documents as Markdown-like text.

use vstd::prelude::*;
use vstd::string::StringExecFns;
use crate::text::{texts, concat_wrapped, repeat_text, push_wrapped, push_repeated};

verus! {

/// A sheet of a workbook: its name and, when it could be read, its rows of
/// cells (each cell already written as text).
#[derive(Debug, Clone, PartialEq, Eq)]
pub struct SheetData {
    pub name: String,
    pub rows: Option<Vec<Vec<String>>>,
}

/// The character sequences of the cells of each row.
pub open spec fn cell_texts(rows: Seq<Vec<String>>) -> Seq<Seq<Seq<char>>> {
    Seq::new(rows.len(), |i: int| texts(rows[i]@))
}

/// Table rows after the header: each is `"| "`, the cells as `" cell |"`,
/// and a line break.
pub open spec fn body_rows(rows: Seq<Seq<Seq<char>>>) -> Seq<char>
    decreases rows.len(),
{
    if rows.len() == 0 {
        Seq::empty()
    } else {
        body_rows(rows.drop_last()) + "| "@ + concat_wrapped(rows.last(), " "@, " |"@) + "\n"@
    }
}

/// A sheet as Markdown: a `# Sheet:` heading, then, when the sheet could be
/// read, a table whose first row is the header (followed by a `---`
/// separator row), then a blank line.
pub open spec fn sheet_text(name: Seq<char>, rows: Option<Seq<Seq<Seq<char>>>>) -> Seq<char> {
    "# Sheet: "@ + name + "\n\n"@ + match rows {
        Some(r) => "| "@ + if r.len() > 0 {
            concat_wrapped(r[0], " "@, " |"@) + "\n| "@ + repeat_text(" --- |"@, r[0].len())
                + "\n"@ + body_rows(r.skip(1))
        } else {
            Seq::empty()
        },
        None => Seq::empty(),
    } + "\n\n"@
}

/// The separator under a table's header: one `" --- |"` cell for each
/// header cell, so `6` characters per header cell, however many rows the
/// table has.
pub proof fn lemma_separator_matches_header(name: Seq<char>, header: Seq<Seq<char>>, rows: Seq<Seq<Seq<char>>>)
    ensures
        ({
            let all = seq![header] + rows;
            let head = "# Sheet: "@ + name + "\n\n"@ + "| "@ + concat_wrapped(header, " "@, " |"@)
                + "\n| "@;
            let t = sheet_text(name, Some(all));
            &&& t.subrange(0, head.len() as int) == head
            &&& t.subrange(head.len() as int, (head.len() + 6 * header.len()) as int) == repeat_text(
                " --- |"@,
                header.len(),
            )
            &&& t[(head.len() + 6 * header.len()) as int] == '\n'
        }),
{
    let all = seq![header] + rows;
    assert(all[0] == header);
    assert(all.skip(1) =~= rows);
    lemma_repeat_len(" --- |"@, header.len());
    reveal_strlit(" --- |");
    let head = "# Sheet: "@ + name + "\n\n"@ + "| "@ + concat_wrapped(header, " "@, " |"@) + "\n| "@;
    let sep = repeat_text(" --- |"@, header.len());
    let t = sheet_text(name, Some(all));
    assert(t =~= head + sep + ("\n"@ + body_rows(rows) + "\n\n"@));
    reveal_strlit("\n");
    assert(t.subrange(0, head.len() as int) =~= head);
    assert(t.subrange(head.len() as int, (head.len() + sep.len()) as int) =~= sep);
    assert(t[(head.len() + sep.len()) as int] == '\n');
}

/// `t` written `n` times is `n` times as long as `t`.
pub proof fn lemma_repeat_len(t: Seq<char>, n: nat)
    ensures
        repeat_text(t, n).len() == n * t.len(),
    decreases n,
{
    if n > 0 {
        let m = (n - 1) as nat;
        let l = t.len();
        lemma_repeat_len(t, m);
        assert(repeat_text(t, n) == repeat_text(t, m) + t);
        assert(m * l + l == n * l) by (nonlinear_arith)
            requires
                m + 1 == n,
        ;
    } else {
        assert(0 * t.len() == 0) by (nonlinear_arith);
    }
}

/// Adding a row at the end of a table that has a header adds just that
/// row's line at the end of the table: the heading, the header and its
/// separator stay as they were.
pub proof fn lemma_sheet_row_added(name: Seq<char>, rows: Seq<Seq<Seq<char>>>, row: Seq<Seq<char>>)
    requires
        rows.len() > 0,
    ensures
        ({
            let t = sheet_text(name, Some(rows));
            sheet_text(name, Some(rows.push(row))) == t.subrange(0, t.len() - 2) + "| "@
                + concat_wrapped(row, " "@, " |"@) + "\n"@ + "\n\n"@
        }),
{
    reveal_strlit("\n\n");
    let r2 = rows.push(row);
    assert(r2[0] == rows[0]);
    assert(r2.skip(1) =~= rows.skip(1).push(row));
    assert(rows.skip(1).push(row).drop_last() =~= rows.skip(1));
    let t = sheet_text(name, Some(rows));
    let u = "# Sheet: "@ + name + "\n\n"@ + ("| "@ + (concat_wrapped(rows[0], " "@, " |"@) + "\n| "@
        + repeat_text(" --- |"@, rows[0].len()) + "\n"@ + body_rows(rows.skip(1))));
    assert(t =~= u + "\n\n"@);
    assert(t.subrange(0, t.len() - 2) =~= u);
    assert(sheet_text(name, Some(r2)) =~= u + "| "@ + concat_wrapped(row, " "@, " |"@) + "\n"@
        + "\n\n"@);
}

/// The text of a sheet's rows, when it has them.
pub open spec fn sheet_rows(sheet: SheetData) -> Option<Seq<Seq<Seq<char>>>> {
    match sheet.rows {
        Some(r) => Some(cell_texts(r@)),
        None => None,
    }
}

/// The sheets of a workbook, one after the other.
pub open spec fn workbook_text(sheets: Seq<SheetData>) -> Seq<char>
    decreases sheets.len(),
{
    if sheets.len() == 0 {
        Seq::empty()
    } else {
        workbook_text(sheets.drop_last()) + sheet_text(sheets.last().name@, sheet_rows(sheets.last()))
    }
}

/// The children of a document body, each followed by a blank line.
pub open spec fn docx_text(children: Seq<Seq<char>>) -> Seq<char> {
    concat_wrapped(children, Seq::empty(), "\n\n"@)
}

pub struct Parser;

impl Parser {
    /// A Word document as text: the children of its body, each written as
    /// text and followed by a blank line.
    pub fn docx_markdown(children: &Vec<String>) -> (text: String)
        ensures
            text@ == docx_text(texts(children@)),
    {
        let mut text = String::new();
        push_wrapped(&mut text, children, "", "\n\n");
        proof {
            reveal_strlit("");
        }
        assert(""@ =~= Seq::<char>::empty());
        text
    }

    /// A Word document as text, from what the document reader gave: the
    /// Debug text of each child of the body (see `docx_markdown`), or the
    /// reader's error message, passed on unchanged.
    pub fn docx_from_reader(read: Result<Vec<String>, String>) -> (r: Result<String, String>)
        ensures
            match read {
                Ok(children) => r matches Ok(text) && text@ == docx_text(texts(children@)),
                Err(e) => r matches Err(m) && m@ == e@,
            },
    {
        match read {
            Ok(children) => Ok(Self::docx_markdown(&children)),
            Err(e) => Err(e),
        }
    }

    /// One sheet as Markdown (see `sheet_text`).
    pub fn sheet_markdown(sheet: &SheetData) -> (text: String)
        ensures
            text@ == sheet_text(sheet.name@, sheet_rows(*sheet)),
    {
        let mut text = String::new();
        text.append("# Sheet: ");
        text.append(sheet.name.as_str());
        text.append("\n\n");
        let ghost before = text@;
        match &sheet.rows {
            Some(rows) => {
                let ghost rv = cell_texts(rows@);
                text.append("| ");
                if rows.len() > 0 {
                    push_wrapped(&mut text, &rows[0], " ", " |");
                    text.append("\n| ");
                    push_repeated(&mut text, " --- |", rows[0].len());
                    text.append("\n");
                    assert(rv[0] == texts(rows@[0]@));
                }
                let ghost head = text@;
                let mut i: usize = 1;
                assert(rv.skip(1).take(0) =~= Seq::<Seq<Seq<char>>>::empty()) by {
                    if rv.len() > 0 {
                    }
                }
                while i < rows.len()
                    invariant
                        rv == cell_texts(rows@),
                        1 <= i,
                        i <= rows@.len() || i == 1,
                        text@ == head + body_rows(rv.skip(1).take(i - 1)),
                    decreases rows.len() - i,
                {
                    text.append("| ");
                    push_wrapped(&mut text, &rows[i], " ", " |");
                    text.append("\n");
                    assert(rv.skip(1).take(i as int).drop_last() =~= rv.skip(1).take(i - 1));
                    assert(rv.skip(1).take(i as int).last() == texts(rows@[i as int]@));
                    i = i + 1;
                }
                if rows.len() > 0 {
                    assert(rv.skip(1).take(rows@.len() - 1) =~= rv.skip(1));
                    assert(text@ =~= before + "| "@ + (concat_wrapped(rv[0], " "@, " |"@) + "\n| "@
                        + repeat_text(" --- |"@, rv[0].len()) + "\n"@ + body_rows(rv.skip(1))));
                } else {
                    assert(rv.skip(1).take(0).len() == 0);
                    assert(body_rows(rv.skip(1).take(0)) =~= Seq::<char>::empty());
                    assert(text@ =~= before + "| "@);
                }
            },
            None => {},
        }
        text.append("\n\n");
        text
    }

    /// A workbook as Markdown: each sheet in turn (see `sheet_text`).
    pub fn workbook_markdown(sheets: &Vec<SheetData>) -> (text: String)
        ensures
            text@ == workbook_text(sheets@),
    {
        let mut text = String::new();
        let mut i: usize = 0;
        assert(sheets@.take(0) =~= Seq::<SheetData>::empty());
        while i < sheets.len()
            invariant
                i <= sheets@.len(),
                text@ == workbook_text(sheets@.take(i as int)),
            decreases sheets.len() - i,
        {
            let part = Self::sheet_markdown(&sheets[i]);
            text.append(part.as_str());
            assert(sheets@.take(i + 1).drop_last() =~= sheets@.take(i as int));
            i = i + 1;
        }
        assert(sheets@.take(sheets@.len() as int) =~= sheets@);
        text
    }
}

} // verus!
