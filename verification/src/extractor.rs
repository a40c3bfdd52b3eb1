//! Turning extracted document text into overlapping chunks for embedding.

use vstd::prelude::*;
use crate::text::{
    is_ws, trim, all_ws, trim_chars, chars_of, string_of, lemma_trim_idempotent, lemma_trim_len,
    lemma_trim_empty_iff_all_ws, split_char, split_chars, lemma_split_char_len,
    joined_lines, texts, contains_seq,
    trim_start, trim_end, lemma_trim_start_shape, lemma_trim_end_shape, is_whitespace,
};

verus! {

/// A piece kept as a line: its trimmed text, when that is not empty.
pub open spec fn kept_line(p: Seq<char>) -> Option<Seq<char>> {
    if trim(p).len() > 0 {
        Some(trim(p))
    } else {
        None
    }
}

/// The kept lines of `pieces`, in order.
pub open spec fn kept_lines(pieces: Seq<Seq<char>>) -> Seq<Seq<char>>
    decreases pieces.len(),
{
    if pieces.len() == 0 {
        Seq::empty()
    } else {
        let rest = kept_lines(pieces.drop_last());
        match kept_line(pieces.last()) {
            Some(l) => rest.push(l),
            None => rest,
        }
    }
}

/// The lines of `s` that hold text, each trimmed, in order: what
/// `s.lines().map(str::trim).filter(|l| !l.is_empty())` yields.
pub open spec fn content_lines(s: Seq<char>) -> Seq<Seq<char>> {
    kept_lines(split_char(s, '\n'))
}

/// The last `n` characters of `s` (all of `s` when it is shorter).
pub open spec fn overlap_tail(s: Seq<char>, n: nat) -> Seq<char> {
    if s.len() <= n {
        s
    } else {
        s.skip(s.len() - n)
    }
}

/// What a chunk continues with after it is closed at a line boundary:
/// its overlap tail, ended by a line break.
pub open spec fn carry_over(s: Seq<char>, n: nat) -> Seq<char> {
    let t = overlap_tail(s, n);
    if t.len() > 0 && t.last() != '\n' {
        t.push('\n')
    } else {
        t
    }
}

/// `c` ends a sentence: `.`, `!`, `?`, `;`, their full-width forms, or `…`.
pub open spec fn is_sentence_stop(c: char) -> bool {
    ||| c == '.'
    ||| c == '!'
    ||| c == '?'
    ||| c == ';'
    ||| is_wide_stop(c)
}

/// A full-width sentence stop (or `…`), which text writes without a space
/// after it.
pub open spec fn is_wide_stop(c: char) -> bool {
    ||| c == '。'
    ||| c == '！'
    ||| c == '？'
    ||| c == '；'
    ||| c == '…'
}

/// A sentence ends between `c` and the character `d` after it: `c` ends a
/// sentence, `d` does not, and `d` is white space or `c` is full-width.
pub open spec fn sentence_break(c: char, d: char) -> bool {
    is_sentence_stop(c) && !is_sentence_stop(d) && (is_wide_stop(c) || is_ws(d))
}

/// The sentences of `s`, in order: `s` is cut after each run of sentence
/// stops that is followed by white space, and after each run of full-width
/// stops. Joined again they give `s` (see `lemma_sentences_rejoin`).
pub open spec fn sentences(s: Seq<char>) -> Seq<Seq<char>>
    decreases s.len(),
{
    if s.len() == 0 {
        Seq::empty()
    } else if s.len() == 1 {
        seq![s]
    } else {
        let pre = sentences(s.drop_last());
        if sentence_break(s[s.len() - 2], s.last()) {
            pre.push(seq![s.last()])
        } else {
            pre.update(pre.len() - 1, pre.last().push(s.last()))
        }
    }
}

/// The pieces `ps` written one after the other.
pub open spec fn concat_pieces(ps: Seq<Seq<char>>) -> Seq<char>
    decreases ps.len(),
{
    if ps.len() == 0 {
        Seq::empty()
    } else {
        concat_pieces(ps.drop_last()) + ps.last()
    }
}

/// The units a line is packed in: the whole line when it fits in a chunk,
/// else its sentences.
pub open spec fn line_units(line: Seq<char>, max: nat) -> Seq<Seq<char>> {
    if line.len() <= max {
        seq![line]
    } else {
        sentences(line)
    }
}

/// One sentence of a long line added to the chunking state: when it would
/// make the current chunk longer than `max`, the chunk is closed first and
/// continued with its overlap tail.
pub open spec fn sentence_step(
    st: (Seq<Seq<char>>, Seq<char>),
    p: Seq<char>,
    max: nat,
    overlap: nat,
) -> (Seq<Seq<char>>, Seq<char>) {
    let st1 = if st.1.len() > 0 && st.1.len() + p.len() > max {
        (st.0.push(trim(st.1)), overlap_tail(st.1, overlap))
    } else {
        st
    };
    (st1.0, st1.1 + p)
}

/// The chunking state after the sentences `ps` of one line: the first is
/// added to the current chunk as it is, each next one by `sentence_step`.
pub open spec fn pack_sentences(
    st: (Seq<Seq<char>>, Seq<char>),
    ps: Seq<Seq<char>>,
    max: nat,
    overlap: nat,
) -> (Seq<Seq<char>>, Seq<char>)
    decreases ps.len(),
{
    if ps.len() == 0 {
        st
    } else if ps.len() == 1 {
        (st.0, st.1 + ps[0])
    } else {
        sentence_step(pack_sentences(st, ps.drop_last(), max, overlap), ps.last(), max, overlap)
    }
}

/// One line added to the chunking state `(closed chunks, current chunk)`:
/// when the line would make the current chunk longer than `max`, the chunk
/// is closed first and continued with its overlap tail and a line break.
/// A line that fits in a chunk is then added whole; a longer line is added
/// sentence by sentence, a chunk being closed before a sentence that would
/// overflow it. Either way a line break follows.
pub open spec fn chunk_step(
    st: (Seq<Seq<char>>, Seq<char>),
    line: Seq<char>,
    max: nat,
    overlap: nat,
) -> (Seq<Seq<char>>, Seq<char>) {
    let st1 = if st.1.len() > 0 && st.1.len() + line.len() > max {
        (st.0.push(trim(st.1)), carry_over(st.1, overlap))
    } else {
        st
    };
    if line.len() <= max {
        (st1.0, (st1.1 + line).push('\n'))
    } else {
        let st2 = pack_sentences(st1, sentences(line), max, overlap);
        (st2.0, st2.1.push('\n'))
    }
}

/// The chunking state after all of `lines`.
pub open spec fn chunk_run(lines: Seq<Seq<char>>, max: nat, overlap: nat) -> (
    Seq<Seq<char>>,
    Seq<char>,
)
    decreases lines.len(),
{
    if lines.len() == 0 {
        (Seq::empty(), Seq::empty())
    } else {
        chunk_step(chunk_run(lines.drop_last(), max, overlap), lines.last(), max, overlap)
    }
}

/// The chunks of `text`: its lines are packed into chunks of about `max`
/// characters; a chunk is closed before a line (or, within a line longer
/// than `max`, before a sentence) that would overflow it; the next chunk
/// starts with the last `overlap` characters of the closed one; every chunk
/// is trimmed. Nothing is ever cut inside a sentence.
pub open spec fn chunks_of(text: Seq<char>, max: nat, overlap: nat) -> Seq<Seq<char>> {
    let st = chunk_run(content_lines(text), max, overlap);
    if trim(st.1).len() > 0 {
        st.0.push(trim(st.1))
    } else {
        st.0
    }
}

/// The trimmed, non-empty lines of `text`.
fn content_lines_of(text: &str) -> (lines: Vec<Vec<char>>)
    ensures
        lines@.len() == content_lines(text@).len(),
        forall|k: int| 0 <= k < lines@.len() ==> #[trigger] lines@[k]@ == content_lines(text@)[k],
{
    let chars = chars_of(text);
    let pieces = split_chars(&chars, '\n');
    let ghost sp = split_char(text@, '\n');
    let mut lines: Vec<Vec<char>> = Vec::new();
    let mut i: usize = 0;
    assert(sp.take(0) =~= Seq::<Seq<char>>::empty());
    while i < pieces.len()
        invariant
            sp == split_char(text@, '\n'),
            pieces@.len() == sp.len(),
            forall|k: int| 0 <= k < pieces@.len() ==> #[trigger] pieces@[k]@ == sp[k],
            i <= pieces@.len(),
            lines@.len() == kept_lines(sp.take(i as int)).len(),
            forall|k: int|
                0 <= k < lines@.len() ==> #[trigger] lines@[k]@ == kept_lines(sp.take(i as int))[k],
        decreases pieces.len() - i,
    {
        let t = trim_chars(&pieces[i]);
        assert(sp.take(i + 1).drop_last() =~= sp.take(i as int));
        assert(sp.take(i + 1).last() == pieces@[i as int]@);
        if t.len() > 0 {
            lines.push(t);
        }
        i = i + 1;
    }
    assert(sp.take(pieces@.len() as int) =~= sp);
    lines
}

proof fn lemma_texts_push(v: Seq<String>, s: String)
    ensures
        texts(v.push(s)) == texts(v).push(s@),
{
    assert(texts(v.push(s)) =~= texts(v).push(s@));
}

/// The last `n` characters of `cur`.
fn overlap_tail_of(cur: &Vec<char>, n: usize) -> (t: Vec<char>)
    ensures
        t@ == overlap_tail(cur@, n as nat),
{
    let len = cur.len();
    let start: usize = if len <= n { 0 } else { len - n };
    let mut t: Vec<char> = Vec::new();
    let mut k: usize = start;
    while k < len
        invariant
            len == cur.len(),
            start <= k <= len,
            t@ =~= cur@.subrange(start as int, k as int),
        decreases len - k,
    {
        t.push(cur[k]);
        k = k + 1;
    }
    assert(cur@.subrange(0, len as int) =~= cur@);
    t
}

/// The overlap tail of `cur`, ended by a line break.
fn carry_over_of(cur: &Vec<char>, n: usize) -> (t: Vec<char>)
    ensures
        t@ == carry_over(cur@, n as nat),
{
    let mut t = overlap_tail_of(cur, n);
    let tl = t.len();
    if tl > 0 && t[tl - 1] != '\n' {
        t.push('\n');
    }
    t
}

/// Closes the chunk `cur`: its trimmed text is appended to `chunks`.
fn close_chunk(chunks: &mut Vec<String>, cur: &Vec<char>)
    ensures
        texts(final(chunks)@) == texts(old(chunks)@).push(trim(cur@)),
{
    let t = trim_chars(cur);
    let s = string_of(&t);
    proof {
        lemma_texts_push(chunks@, s);
    }
    chunks.push(s);
}

/// Appends `line[start..end]` to `cur`.
fn append_range(cur: &mut Vec<char>, line: &Vec<char>, start: usize, end: usize)
    requires
        start <= end <= line.len(),
    ensures
        final(cur)@ == old(cur)@ + line@.subrange(start as int, end as int),
{
    let mut k: usize = start;
    let ghost c0 = cur@;
    while k < end
        invariant
            start <= k <= end <= line.len(),
            cur@ =~= c0 + line@.subrange(start as int, k as int),
        decreases end - k,
    {
        cur.push(line[k]);
        k = k + 1;
    }
}

/// Whether a sentence ends between `c` and the character `d` after it.
fn is_sentence_break(c: char, d: char) -> (b: bool)
    ensures
        b == sentence_break(c, d),
{
    let wide = c == '。' || c == '！' || c == '？' || c == '；' || c == '…';
    let stop_c = wide || c == '.' || c == '!' || c == '?' || c == ';';
    let stop_d = d == '。' || d == '！' || d == '？' || d == '；' || d == '…' || d == '.' || d
        == '!' || d == '?' || d == ';';
    stop_c && !stop_d && (wide || is_whitespace(d))
}

/// The sentences of `line`.
fn sentences_of(line: &Vec<char>) -> (ps: Vec<Vec<char>>)
    ensures
        ps@.len() == sentences(line@).len(),
        forall|k: int| 0 <= k < ps@.len() ==> #[trigger] ps@[k]@ == sentences(line@)[k],
{
    let n = line.len();
    let mut ps: Vec<Vec<char>> = Vec::new();
    if n == 0 {
        return ps;
    }
    let mut cur: Vec<char> = Vec::new();
    cur.push(line[0]);
    assert(line@.take(1) =~= seq![line@[0]]);
    let mut i: usize = 1;
    while i < n
        invariant
            n == line.len(),
            1 <= i <= n,
            sentences(line@.take(i as int)).len() == ps@.len() + 1,
            forall|k: int|
                0 <= k < ps@.len() ==> #[trigger] ps@[k]@ == sentences(line@.take(i as int))[k],
            cur@ == sentences(line@.take(i as int)).last(),
        decreases n - i,
    {
        let ghost s = line@.take(i + 1);
        let ghost pre = sentences(line@.take(i as int));
        assert(s.drop_last() =~= line@.take(i as int));
        assert(s[s.len() - 2] == line@[i - 1]);
        assert(s.last() == line@[i as int]);
        if is_sentence_break(line[i - 1], line[i]) {
            ps.push(cur);
            cur = Vec::new();
            cur.push(line[i]);
            assert(cur@ =~= seq![line@[i as int]]);
            assert forall|k: int| 0 <= k < ps@.len() implies #[trigger] ps@[k]@ == sentences(s)[k] by {
                if k < ps@.len() - 1 {
                    assert(sentences(s)[k] == pre[k]);
                }
            }
        } else {
            cur.push(line[i]);
            assert forall|k: int| 0 <= k < ps@.len() implies #[trigger] ps@[k]@ == sentences(s)[k] by {
                assert(sentences(s)[k] == pre[k]);
            }
        }
        i = i + 1;
    }
    ps.push(cur);
    assert(line@.take(n as int) =~= line@);
    ps
}

/// Splits `text` into chunks of about `max_size` characters for embedding.
///
/// The text is taken line by line (each line trimmed, blank lines dropped).
/// Lines are packed into the current chunk; when the next line would make it
/// longer than `max_size`, the chunk is closed and the next one starts with
/// its last `overlap` characters. The sentences of a line longer than
/// `max_size` are then packed in the same way, so a chunk ends at a line or
/// at a sentence, never inside one. Every chunk is trimmed.
pub fn chunk_text(text: &str, max_size: usize, overlap: usize) -> (chunks: Vec<String>)
    ensures
        texts(chunks@) == chunks_of(text@, max_size as nat, overlap as nat),
{
    let lines = content_lines_of(text);
    let ghost ls = content_lines(text@);
    let ghost max = max_size as nat;
    let ghost ov = overlap as nat;
    let mut chunks: Vec<String> = Vec::new();
    let mut cur: Vec<char> = Vec::new();
    let nlines = lines.len();
    let mut i: usize = 0;
    assert(texts(chunks@) =~= Seq::<Seq<char>>::empty());
    assert(ls.take(0) =~= Seq::<Seq<char>>::empty());
    while i < nlines
        invariant
            nlines == lines@.len(),
            nlines == ls.len(),
            ls == content_lines(text@),
            max == max_size as nat,
            ov == overlap as nat,
            forall|k: int| 0 <= k < lines@.len() ==> #[trigger] lines@[k]@ == ls[k],
            i <= nlines,
            chunk_run(ls.take(i as int), max, ov) == (texts(chunks@), cur@),
        decreases nlines - i,
    {
        let line = &lines[i];
        let line_len = line.len();
        assert(line@ == ls[i as int]);
        assert(ls.take(i + 1).drop_last() =~= ls.take(i as int));
        let cur_len = cur.len();
        if cur_len > 0 && (cur_len > max_size || line_len > max_size - cur_len) {
            close_chunk(&mut chunks, &cur);
            cur = carry_over_of(&cur, overlap);
        }
        if line_len <= max_size {
            append_range(&mut cur, line, 0, line_len);
            assert(line@.subrange(0, line_len as int) =~= line@);
            cur.push('\n');
        } else {
            let ps = sentences_of(line);
            let ghost sp = sentences(line@);
            let ghost st0 = (texts(chunks@), cur@);
            let np = ps.len();
            let mut j: usize = 0;
            assert(sp.take(0) =~= Seq::<Seq<char>>::empty());
            while j < np
                invariant
                    np == ps@.len(),
                    np == sp.len(),
                    forall|k: int| 0 <= k < ps@.len() ==> #[trigger] ps@[k]@ == sp[k],
                    j <= np,
                    max == max_size as nat,
                    ov == overlap as nat,
                    pack_sentences(st0, sp.take(j as int), max, ov) == (texts(chunks@), cur@),
                decreases np - j,
            {
                let p = &ps[j];
                let pl = p.len();
                let cl = cur.len();
                assert(p@ == sp[j as int]);
                assert(sp.take(j + 1).drop_last() =~= sp.take(j as int));
                if j > 0 && cl > 0 && (cl > max_size || pl > max_size - cl) {
                    close_chunk(&mut chunks, &cur);
                    cur = overlap_tail_of(&cur, overlap);
                }
                append_range(&mut cur, p, 0, pl);
                assert(p@.subrange(0, pl as int) =~= p@);
                j = j + 1;
            }
            assert(sp.take(np as int) =~= sp);
            cur.push('\n');
        }
        i = i + 1;
    }
    assert(ls.take(nlines as int) =~= ls);
    let t = trim_chars(&cur);
    if t.len() > 0 {
        close_chunk(&mut chunks, &cur);
    }
    chunks
}

/// Every chunk in `cs` is its own trimmed text.
pub open spec fn all_trimmed(cs: Seq<Seq<char>>) -> bool {
    forall|i: int| 0 <= i < cs.len() ==> trim(#[trigger] cs[i]) == cs[i]
}

/// Every chunk in `cs` has at most `max` characters.
pub open spec fn all_within(cs: Seq<Seq<char>>, max: nat) -> bool {
    forall|i: int| 0 <= i < cs.len() ==> #[trigger] cs[i].len() <= max
}

/// `s` is not empty and neither starts nor ends with white space.
pub open spec fn solid(t: Seq<char>) -> bool {
    t.len() > 0 && !is_ws(t[0]) && !is_ws(t.last())
}

/// The shape of the sentences of `s`: there is one at least when `s` is not
/// empty, none is empty, the last ends as `s` does, and every other one ends
/// with a sentence stop.
proof fn lemma_sentences_shape(s: Seq<char>)
    ensures
        s.len() > 0 ==> sentences(s).len() > 0,
        s.len() > 0 ==> sentences(s).last().len() > 0 && sentences(s).last().last() == s.last(),
        forall|k: int| 0 <= k < sentences(s).len() ==> #[trigger] sentences(s)[k].len() > 0,
        forall|k: int|
            0 <= k < sentences(s).len() - 1 ==> is_sentence_stop(#[trigger] sentences(s)[k].last()),
    decreases s.len(),
{
    if s.len() >= 2 {
        let pre = sentences(s.drop_last());
        lemma_sentences_shape(s.drop_last());
        assert(s.drop_last().last() == s[s.len() - 2]);
        if sentence_break(s[s.len() - 2], s.last()) {
            let r = pre.push(seq![s.last()]);
            assert forall|k: int| 0 <= k < r.len() implies #[trigger] r[k].len() > 0 by {
                if k < pre.len() {
                    assert(r[k] == pre[k]);
                }
            }
            assert forall|k: int| 0 <= k < r.len() - 1 implies is_sentence_stop(#[trigger] r[k].last()) by {
                assert(r[k] == pre[k]);
            }
        } else {
            let r = pre.update(pre.len() - 1, pre.last().push(s.last()));
            assert forall|k: int| 0 <= k < r.len() implies #[trigger] r[k].len() > 0 by {
                if k < pre.len() - 1 {
                    assert(r[k] == pre[k]);
                }
            }
            assert forall|k: int| 0 <= k < r.len() - 1 implies is_sentence_stop(#[trigger] r[k].last()) by {
                assert(r[k] == pre[k]);
            }
        }
    }
}

/// Cutting a line into sentences loses nothing: the sentences written one
/// after the other are the line.
pub proof fn lemma_sentences_rejoin(s: Seq<char>)
    ensures
        concat_pieces(sentences(s)) == s,
    decreases s.len(),
{
    if s.len() == 1 {
        let r = seq![s];
        assert(r.drop_last() =~= Seq::<Seq<char>>::empty());
        assert(concat_pieces(r) == concat_pieces(r.drop_last()) + r.last());
        assert(Seq::<char>::empty() + s =~= s);
    } else if s.len() >= 2 {
        let pre = sentences(s.drop_last());
        lemma_sentences_rejoin(s.drop_last());
        lemma_sentences_shape(s.drop_last());
        if sentence_break(s[s.len() - 2], s.last()) {
            let r = pre.push(seq![s.last()]);
            assert(r.drop_last() =~= pre);
            assert(concat_pieces(r) == concat_pieces(pre) + seq![s.last()]);
            assert(s.drop_last() + seq![s.last()] =~= s);
        } else {
            let r = pre.update(pre.len() - 1, pre.last().push(s.last()));
            assert(r.drop_last() =~= pre.drop_last());
            assert(r.last() == pre.last().push(s.last()));
            assert(concat_pieces(r) == concat_pieces(pre.drop_last()) + pre.last().push(s.last()));
            assert(concat_pieces(pre) == concat_pieces(pre.drop_last()) + pre.last());
            assert(concat_pieces(pre.drop_last()) + pre.last().push(s.last()) =~= (concat_pieces(
                pre.drop_last(),
            ) + pre.last()).push(s.last()));
            assert(s.drop_last().push(s.last()) =~= s);
        }
    }
}

proof fn lemma_trim_solid(t: Seq<char>)
    requires
        solid(t),
    ensures
        trim(t) == t,
{
    assert(trim_start(t) == t);
    assert(trim_end(t) == t);
}

proof fn lemma_trim_nonempty_solid(p: Seq<char>)
    requires
        trim(p).len() > 0,
    ensures
        solid(trim(p)),
{
    let u = trim_start(p);
    lemma_trim_start_shape(p);
    lemma_trim_end_shape(u);
}

/// Every unit of a line that holds text has text of its own.
proof fn lemma_units_have_text(line: Seq<char>, max: nat)
    requires
        solid(line),
    ensures
        forall|j: int|
            0 <= j < line_units(line, max).len() ==> solid(trim(#[trigger] line_units(line, max)[j])),
{
    let us = line_units(line, max);
    if line.len() <= max {
        lemma_trim_solid(line);
        assert(us[0] == line);
    } else {
        lemma_sentences_shape(line);
        assert forall|j: int| 0 <= j < us.len() implies solid(trim(#[trigger] us[j])) by {
            let p = us[j];
            assert(p.len() > 0);
            assert(!is_ws(p.last())) by {
                if j < us.len() - 1 {
                    assert(is_sentence_stop(p.last()));
                }
            }
            lemma_trim_empty_iff_all_ws(p);
            assert(!all_ws(p)) by {
                assert(!is_ws(p[p.len() - 1]));
            }
            lemma_trim_nonempty_solid(p);
        }
    }
}

proof fn lemma_push_trimmed(cs: Seq<Seq<char>>, c: Seq<char>)
    requires
        all_trimmed(cs),
    ensures
        all_trimmed(cs.push(trim(c))),
{
    lemma_trim_idempotent(c);
    assert forall|i: int| 0 <= i < cs.push(trim(c)).len() implies trim(
        #[trigger] cs.push(trim(c))[i],
    ) == cs.push(trim(c))[i] by {
        if i < cs.len() {
            assert(cs.push(trim(c))[i] == cs[i]);
        }
    }
}

proof fn lemma_pack_trimmed(
    st: (Seq<Seq<char>>, Seq<char>),
    ps: Seq<Seq<char>>,
    max: nat,
    overlap: nat,
)
    requires
        all_trimmed(st.0),
    ensures
        all_trimmed(pack_sentences(st, ps, max, overlap).0),
    decreases ps.len(),
{
    if ps.len() > 1 {
        lemma_pack_trimmed(st, ps.drop_last(), max, overlap);
        let q = pack_sentences(st, ps.drop_last(), max, overlap);
        if q.1.len() > 0 && q.1.len() + ps.last().len() > max {
            lemma_push_trimmed(q.0, q.1);
        }
    }
}

proof fn lemma_run_trimmed(lines: Seq<Seq<char>>, max: nat, overlap: nat)
    ensures
        all_trimmed(chunk_run(lines, max, overlap).0),
    decreases lines.len(),
{
    if lines.len() > 0 {
        let pre = lines.drop_last();
        lemma_run_trimmed(pre, max, overlap);
        let st = chunk_run(pre, max, overlap);
        let line = lines.last();
        let fired = st.1.len() > 0 && st.1.len() + line.len() > max;
        let st1 = if fired {
            (st.0.push(trim(st.1)), carry_over(st.1, overlap))
        } else {
            st
        };
        if fired {
            lemma_push_trimmed(st.0, st.1);
        }
        if line.len() > max {
            lemma_pack_trimmed(st1, sentences(line), max, overlap);
        }
    }
}

/// Every chunk is trimmed: no chunk starts or ends with white space.
pub proof fn lemma_chunks_are_trimmed(text: Seq<char>, max: nat, overlap: nat)
    ensures
        all_trimmed(chunks_of(text, max, overlap)),
{
    let ls = content_lines(text);
    lemma_run_trimmed(ls, max, overlap);
    let st = chunk_run(ls, max, overlap);
    if trim(st.1).len() > 0 {
        lemma_push_trimmed(st.0, st.1);
    }
}

proof fn lemma_split_blank(s: Seq<char>)
    requires
        all_ws(s),
    ensures
        forall|i: int|
            0 <= i < split_char(s, '\n').len() ==> all_ws(#[trigger] split_char(s, '\n')[i]),
    decreases s.len(),
{
    if s.len() > 0 {
        let pre = s.drop_last();
        assert(all_ws(pre)) by {
            assert forall|i: int| 0 <= i < pre.len() implies is_ws(#[trigger] pre[i]) by {
                assert(pre[i] == s[i]);
            }
        }
        lemma_split_blank(pre);
        lemma_split_char_len(pre, '\n');
        let rest = split_char(pre, '\n');
        assert(is_ws(s[s.len() - 1]));
        if s.last() != '\n' {
            let p = rest.last().push(s.last());
            assert(all_ws(rest[rest.len() - 1]));
            assert(all_ws(p)) by {
                assert forall|i: int| 0 <= i < p.len() implies is_ws(#[trigger] p[i]) by {
                    if i < p.len() - 1 {
                        assert(p[i] == rest[rest.len() - 1][i]);
                    }
                }
            }
        }
    }
}

proof fn lemma_kept_lines_blank(ps: Seq<Seq<char>>)
    requires
        forall|i: int| 0 <= i < ps.len() ==> all_ws(#[trigger] ps[i]),
    ensures
        kept_lines(ps).len() == 0,
    decreases ps.len(),
{
    if ps.len() > 0 {
        let pre = ps.drop_last();
        assert forall|i: int| 0 <= i < pre.len() implies all_ws(#[trigger] pre[i]) by {
            assert(pre[i] == ps[i]);
        }
        lemma_kept_lines_blank(pre);
        assert(all_ws(ps[ps.len() - 1]));
        lemma_trim_empty_iff_all_ws(ps.last());
    }
}

/// Text that is only white space (or empty) gives no chunks.
pub proof fn lemma_blank_text_has_no_chunks(text: Seq<char>, max: nat, overlap: nat)
    requires
        all_ws(text),
    ensures
        chunks_of(text, max, overlap).len() == 0,
{
    lemma_split_blank(text);
    lemma_kept_lines_blank(split_char(text, '\n'));
    let ls = content_lines(text);
    assert(chunk_run(ls, max, overlap) == (Seq::<Seq<char>>::empty(), Seq::<char>::empty()));
    lemma_trim_empty_iff_all_ws(Seq::<char>::empty());
}

/// The current chunk between lines: empty, or ended by a line break and at
/// most `bound + 1` characters long.
pub open spec fn current_within(cur: Seq<char>, bound: nat) -> bool {
    cur.len() == 0 || (cur.len() <= bound + 1 && cur.last() == '\n')
}

/// Every unit of every line of `lines` fits in a chunk of `max` characters:
/// each line does, or each sentence of a longer line does.
pub open spec fn units_fit(lines: Seq<Seq<char>>, max: nat) -> bool {
    forall|i: int, j: int|
        0 <= i < lines.len() && 0 <= j < line_units(lines[i], max).len() ==> #[trigger] line_units(
            lines[i],
            max,
        )[j].len() <= max
}

proof fn lemma_push_within(cs: Seq<Seq<char>>, c: Seq<char>, max: nat)
    requires
        all_within(cs, max),
        trim(c).len() <= max,
    ensures
        all_within(cs.push(trim(c)), max),
{
    assert forall|i: int| 0 <= i < cs.push(trim(c)).len() implies #[trigger] cs.push(
        trim(c),
    )[i].len() <= max by {
        if i < cs.len() {
            assert(cs.push(trim(c))[i] == cs[i]);
        }
    }
}

proof fn lemma_pack_within(
    st: (Seq<Seq<char>>, Seq<char>),
    ps: Seq<Seq<char>>,
    max: nat,
    overlap: nat,
)
    requires
        all_within(st.0, max + overlap),
        st.1.len() <= overlap,
        forall|j: int| 0 <= j < ps.len() ==> #[trigger] ps[j].len() <= max,
    ensures
        all_within(pack_sentences(st, ps, max, overlap).0, max + overlap),
        ps.len() > 0 ==> pack_sentences(st, ps, max, overlap).1.len() <= max + overlap,
    decreases ps.len(),
{
    if ps.len() == 1 {
        assert(ps[0].len() <= max);
    } else if ps.len() > 1 {
        let pre = ps.drop_last();
        assert forall|j: int| 0 <= j < pre.len() implies #[trigger] pre[j].len() <= max by {
            assert(pre[j] == ps[j]);
        }
        lemma_pack_within(st, pre, max, overlap);
        let q = pack_sentences(st, pre, max, overlap);
        let p = ps.last();
        assert(p.len() <= max) by {
            assert(p == ps[ps.len() - 1]);
        }
        if q.1.len() > 0 && q.1.len() + p.len() > max {
            lemma_trim_len(q.1);
            lemma_push_within(q.0, q.1, max + overlap);
        }
    }
}

proof fn lemma_run_within(lines: Seq<Seq<char>>, max: nat, overlap: nat)
    requires
        units_fit(lines, max),
    ensures
        all_within(chunk_run(lines, max, overlap).0, max + overlap),
        current_within(chunk_run(lines, max, overlap).1, max + overlap),
    decreases lines.len(),
{
    if lines.len() > 0 {
        let pre = lines.drop_last();
        assert forall|i: int, j: int|
            0 <= i < pre.len() && 0 <= j < line_units(pre[i], max).len() implies #[trigger] line_units(
            pre[i],
            max,
        )[j].len() <= max by {
            assert(pre[i] == lines[i]);
        }
        lemma_run_within(pre, max, overlap);
        let st = chunk_run(pre, max, overlap);
        let line = lines.last();
        assert(line == lines[lines.len() - 1]);
        lemma_trim_len(st.1);
        let fired = st.1.len() > 0 && st.1.len() + line.len() > max;
        let st1 = if fired {
            (st.0.push(trim(st.1)), carry_over(st.1, overlap))
        } else {
            st
        };
        if fired {
            lemma_push_within(st.0, st.1, max + overlap);
            let t = overlap_tail(st.1, overlap);
            if t.len() > 0 {
                assert(t.last() == st.1.last());
            }
            assert(st1.1.len() <= overlap);
        }
        if line.len() > max {
            let ps = sentences(line);
            lemma_sentences_shape(line);
            assert forall|j: int| 0 <= j < ps.len() implies #[trigger] ps[j].len() <= max by {
                assert(line_units(lines[lines.len() - 1], max)[j] == ps[j]);
            }
            assert(st1.1.len() <= overlap);
            lemma_pack_within(st1, ps, max, overlap);
        }
    }
}

/// When every line, or every sentence of a longer line, fits in `max`
/// characters, no chunk is longer than `max` plus `overlap` characters: a
/// chunk holds at most the carried overlap and `max` characters of new text.
pub proof fn lemma_chunks_within_size(text: Seq<char>, max: nat, overlap: nat)
    requires
        units_fit(content_lines(text), max),
    ensures
        all_within(chunks_of(text, max, overlap), max + overlap),
{
    let ls = content_lines(text);
    lemma_run_within(ls, max, overlap);
    let st = chunk_run(ls, max, overlap);
    if trim(st.1).len() > 0 {
        lemma_trim_len(st.1);
        lemma_push_within(st.0, st.1, max + overlap);
    }
}

/// Without overlap, when every line or sentence fits, no chunk is longer
/// than `max` characters.
pub proof fn lemma_chunks_fit_without_overlap(text: Seq<char>, max: nat)
    requires
        units_fit(content_lines(text), max),
    ensures
        all_within(chunks_of(text, max, 0), max),
{
    lemma_chunks_within_size(text, max, 0);
}

proof fn lemma_kept_lines_solid(ps: Seq<Seq<char>>)
    ensures
        forall|i: int| 0 <= i < kept_lines(ps).len() ==> solid(#[trigger] kept_lines(ps)[i]),
    decreases ps.len(),
{
    if ps.len() > 0 {
        let rest = kept_lines(ps.drop_last());
        lemma_kept_lines_solid(ps.drop_last());
        if trim(ps.last()).len() > 0 {
            lemma_trim_nonempty_solid(ps.last());
            assert forall|i: int| 0 <= i < kept_lines(ps).len() implies solid(
                #[trigger] kept_lines(ps)[i],
            ) by {
                if i < rest.len() {
                    assert(kept_lines(ps)[i] == rest[i]);
                }
            }
        }
    }
}

proof fn lemma_trim_solid_line(t: Seq<char>)
    requires
        solid(t),
    ensures
        trim(t.push('\n')) == t,
{
    let u = t.push('\n');
    assert(u[0] == t[0]);
    assert(trim_start(u) == u);
    assert(u.drop_last() =~= t);
    assert(trim_end(t) == t);
}

proof fn lemma_joined_push(x: Seq<Seq<char>>, y: Seq<char>)
    ensures
        x.len() == 0 ==> joined_lines(x.push(y)) == y,
        x.len() > 0 ==> joined_lines(x.push(y)) == joined_lines(x) + "\n"@ + y,
{
    assert(x.push(y).drop_last() =~= x);
    if x.len() == 0 {
        assert(x.push(y)[0] == y);
    }
}

/// The chunking state after whole lines, without overlap: the current chunk
/// is a solid text ended by a line break, and the closed chunks followed by
/// that text, joined by line breaks, are the lines joined by line breaks.
pub open spec fn keeps_lines(lines: Seq<Seq<char>>, st: (Seq<Seq<char>>, Seq<char>)) -> bool {
    if lines.len() == 0 {
        st.0.len() == 0 && st.1.len() == 0
    } else {
        &&& st.1.len() > 0
        &&& st.1.last() == '\n'
        &&& solid(st.1.drop_last())
        &&& joined_lines(st.0.push(st.1.drop_last())) == joined_lines(lines)
    }
}

proof fn lemma_run_keeps_lines(lines: Seq<Seq<char>>, max: nat)
    requires
        forall|i: int| 0 <= i < lines.len() ==> #[trigger] lines[i].len() <= max,
        forall|i: int| 0 <= i < lines.len() ==> solid(#[trigger] lines[i]),
    ensures
        keeps_lines(lines, chunk_run(lines, max, 0)),
    decreases lines.len(),
{
    reveal_strlit("\n");
    if lines.len() > 0 {
        let pre = lines.drop_last();
        assert forall|i: int| 0 <= i < pre.len() implies #[trigger] pre[i].len() <= max && solid(
            pre[i],
        ) by {
            assert(pre[i] == lines[i]);
        }
        lemma_run_keeps_lines(pre, max);
        let st = chunk_run(pre, max, 0);
        let l = lines.last();
        assert(l.len() <= max && solid(l)) by {
            assert(l == lines[lines.len() - 1]);
        }
        assert(lines.drop_last().push(l) =~= lines);
        lemma_joined_push(pre, l);
        if pre.len() == 0 {
            assert((st.1 + l).push('\n').drop_last() =~= l);
            lemma_joined_push(st.0, l);
            assert(keeps_lines(lines, chunk_step(st, l, max, 0)));
        } else {
            let t = st.1.drop_last();
            assert(st.1 =~= t.push('\n'));
            lemma_trim_solid_line(t);
            lemma_joined_push(st.0, t);
            if st.1.len() + l.len() > max {
                assert(overlap_tail(st.1, 0) =~= Seq::<char>::empty());
                let cs = st.0.push(t);
                assert((Seq::<char>::empty() + l).push('\n').drop_last() =~= l);
                lemma_joined_push(cs, l);
                assert(keeps_lines(lines, chunk_step(st, l, max, 0)));
            } else {
                let t2 = st.1 + l;
                assert((st.1 + l).push('\n').drop_last() =~= t2);
                assert(t2[0] == t[0]);
                assert(t2.last() == l.last());
                lemma_joined_push(st.0, t2);
                assert(t2 =~= t + "\n"@ + l);
                if st.0.len() > 0 {
                    assert(joined_lines(st.0.push(t2)) =~= joined_lines(st.0) + "\n"@ + t + "\n"@ + l);
                    assert(joined_lines(lines) =~= joined_lines(st.0) + "\n"@ + t + "\n"@ + l);
                } else {
                    assert(joined_lines(lines) =~= t + "\n"@ + l);
                }
                assert(keeps_lines(lines, chunk_step(st, l, max, 0)));
            }
        }
    }
}

/// Without overlap, and when no line is longer than a chunk, chunking keeps
/// every line whole and loses no text: the chunks joined by line breaks are
/// the text's non-blank lines, trimmed, joined by line breaks.
pub proof fn lemma_chunks_keep_lines(text: Seq<char>, max: nat)
    requires
        forall|i: int|
            0 <= i < content_lines(text).len() ==> #[trigger] content_lines(text)[i].len() <= max,
    ensures
        joined_lines(chunks_of(text, max, 0)) == joined_lines(content_lines(text)),
{
    let ls = content_lines(text);
    lemma_kept_lines_solid(split_char(text, '\n'));
    lemma_run_keeps_lines(ls, max);
    let st = chunk_run(ls, max, 0);
    if ls.len() > 0 {
        let t = st.1.drop_last();
        assert(st.1 =~= t.push('\n'));
        lemma_trim_solid_line(t);
    } else {
        assert(trim(st.1).len() == 0);
    }
}

/// `l` lies whole within one of the chunks `cs`.
pub open spec fn in_some_chunk(cs: Seq<Seq<char>>, l: Seq<char>) -> bool {
    exists|k: int| 0 <= k < cs.len() && contains_seq(#[trigger] cs[k], l)
}

/// A solid text inside `s` is still inside `s` trimmed.
proof fn lemma_trim_keeps_solid(s: Seq<char>, l: Seq<char>)
    requires
        solid(l),
        contains_seq(s, l),
    ensures
        contains_seq(trim(s), l),
{
    let u = trim_start(s);
    lemma_trim_start_shape(s);
    lemma_trim_end_shape(u);
    let k = choose|k: int|
        0 <= k <= s.len() && #[trigger] s.skip(k) == trim_start(s) && (forall|i: int|
            0 <= i < k ==> is_ws(#[trigger] s[i]));
    let j = choose|j: int|
        0 <= j <= u.len() && #[trigger] u.take(j) == trim_end(u) && (forall|i: int|
            j <= i < u.len() ==> is_ws(#[trigger] u[i]));
    let i = choose|i: int| 0 <= i && i + l.len() <= s.len() && #[trigger] s.subrange(i, i + l.len()) == l;
    let n = l.len() as int;
    assert(s[i] == l[0]);
    assert(i >= k) by {
        if i < k {
            assert(is_ws(s[i]));
        }
    }
    assert(s[i + n - 1] == l.last());
    assert(u[i + n - 1 - k] == s[i + n - 1]);
    assert(i + n - k <= j) by {
        if i + n - 1 - k >= j {
            assert(is_ws(u[i + n - 1 - k]));
        }
    }
    let t = trim(s);
    assert(t == u.take(j));
    assert(t.subrange(i - k, i - k + n) =~= l);
}

/// `trim(p)` lies within `p`.
proof fn lemma_contains_trim(p: Seq<char>)
    ensures
        contains_seq(p, trim(p)),
{
    let u = trim_start(p);
    lemma_trim_start_shape(p);
    lemma_trim_end_shape(u);
    let k = choose|k: int|
        0 <= k <= p.len() && #[trigger] p.skip(k) == trim_start(p) && (forall|i: int|
            0 <= i < k ==> is_ws(#[trigger] p[i]));
    let j = choose|j: int|
        0 <= j <= u.len() && #[trigger] u.take(j) == trim_end(u) && (forall|i: int|
            j <= i < u.len() ==> is_ws(#[trigger] u[i]));
    assert(p.subrange(k, k + j) =~= trim(p));
}

proof fn lemma_prefix_keeps(a: Seq<char>, b: Seq<char>, l: Seq<char>)
    requires
        contains_seq(a, l),
    ensures
        contains_seq(a + b, l),
{
    let i = choose|i: int| 0 <= i && i + l.len() <= a.len() && #[trigger] a.subrange(i, i + l.len()) == l;
    assert((a + b).subrange(i, i + l.len()) =~= a.subrange(i, i + l.len()));
}

proof fn lemma_suffix_keeps(a: Seq<char>, b: Seq<char>, l: Seq<char>)
    requires
        contains_seq(b, l),
    ensures
        contains_seq(a + b, l),
{
    let i = choose|i: int| 0 <= i && i + l.len() <= b.len() && #[trigger] b.subrange(i, i + l.len()) == l;
    let j = i + a.len();
    assert((a + b).subrange(j, j + l.len()) =~= b.subrange(i, i + l.len()));
}

/// The unit `u` is placed: its trimmed text lies within a closed chunk or
/// within the current one.
pub open spec fn unit_placed(st: (Seq<Seq<char>>, Seq<char>), u: Seq<char>) -> bool {
    in_some_chunk(st.0, trim(u)) || contains_seq(st.1, trim(u))
}

/// Every unit of every line of `lines` is placed in the state `st`.
pub open spec fn units_whole(lines: Seq<Seq<char>>, max: nat, st: (Seq<Seq<char>>, Seq<char>)) -> bool {
    forall|i: int, j: int|
        0 <= i < lines.len() && 0 <= j < line_units(lines[i], max).len() ==> #[trigger] unit_placed(
            st,
            line_units(lines[i], max)[j],
        )
}

proof fn lemma_close_keeps(cs: Seq<Seq<char>>, cur: Seq<char>, l: Seq<char>)
    requires
        solid(l),
        in_some_chunk(cs, l) || contains_seq(cur, l),
    ensures
        in_some_chunk(cs.push(trim(cur)), l),
{
    let cs2 = cs.push(trim(cur));
    if in_some_chunk(cs, l) {
        let k = choose|k: int| 0 <= k < cs.len() && contains_seq(#[trigger] cs[k], l);
        assert(cs2[k] == cs[k]);
    } else {
        lemma_trim_keeps_solid(cur, l);
        assert(cs2[cs.len() as int] == trim(cur));
    }
}

/// A placed unit stays placed when text is added to the current chunk, or
/// when the chunk is closed and continued with any text.
proof fn lemma_placed_after(
    st: (Seq<Seq<char>>, Seq<char>),
    st2: (Seq<Seq<char>>, Seq<char>),
    u: Seq<char>,
)
    requires
        solid(trim(u)),
        unit_placed(st, u),
        (st2.0 == st.0 && exists|b: Seq<char>| st2.1 == st.1 + b) || st2.0 == st.0.push(trim(st.1)),
    ensures
        unit_placed(st2, u),
{
    if st2.0 == st.0.push(trim(st.1)) {
        lemma_close_keeps(st.0, st.1, trim(u));
    } else if !in_some_chunk(st.0, trim(u)) {
        let b = choose|b: Seq<char>| st2.1 == st.1 + b;
        lemma_prefix_keeps(st.1, b, trim(u));
    }
}

proof fn lemma_sentence_step_keeps(
    st: (Seq<Seq<char>>, Seq<char>),
    p: Seq<char>,
    max: nat,
    overlap: nat,
    u: Seq<char>,
)
    requires
        solid(trim(u)),
        unit_placed(st, u),
    ensures
        unit_placed(sentence_step(st, p, max, overlap), u),
{
    let st2 = sentence_step(st, p, max, overlap);
    if !(st.1.len() > 0 && st.1.len() + p.len() > max) {
        assert(st2.1 == st.1 + p);
    }
    lemma_placed_after(st, st2, u);
}

proof fn lemma_pack_keeps(
    st: (Seq<Seq<char>>, Seq<char>),
    ps: Seq<Seq<char>>,
    max: nat,
    overlap: nat,
    u: Seq<char>,
)
    requires
        solid(trim(u)),
        unit_placed(st, u),
    ensures
        unit_placed(pack_sentences(st, ps, max, overlap), u),
    decreases ps.len(),
{
    if ps.len() == 1 {
        lemma_placed_after(st, (st.0, st.1 + ps[0]), u);
    } else if ps.len() > 1 {
        lemma_pack_keeps(st, ps.drop_last(), max, overlap, u);
        lemma_sentence_step_keeps(
            pack_sentences(st, ps.drop_last(), max, overlap),
            ps.last(),
            max,
            overlap,
            u,
        );
    }
}

proof fn lemma_pack_places(
    st: (Seq<Seq<char>>, Seq<char>),
    ps: Seq<Seq<char>>,
    max: nat,
    overlap: nat,
    j: int,
)
    requires
        0 <= j < ps.len(),
        solid(trim(ps[j])),
    ensures
        unit_placed(pack_sentences(st, ps, max, overlap), ps[j]),
    decreases ps.len(),
{
    let pre = ps.drop_last();
    let q = pack_sentences(st, pre, max, overlap);
    if ps.len() == 1 {
        lemma_contains_trim(ps[0]);
        lemma_suffix_keeps(st.1, ps[0], trim(ps[0]));
    } else if j == ps.len() - 1 {
        let p = ps.last();
        let st2 = sentence_step(q, p, max, overlap);
        let st1 = if q.1.len() > 0 && q.1.len() + p.len() > max {
            (q.0.push(trim(q.1)), overlap_tail(q.1, overlap))
        } else {
            q
        };
        assert(st2.1 == st1.1 + p);
        lemma_contains_trim(p);
        lemma_suffix_keeps(st1.1, p, trim(p));
    } else {
        assert(pre[j] == ps[j]);
        lemma_pack_places(st, pre, max, overlap, j);
        lemma_sentence_step_keeps(q, ps.last(), max, overlap, ps[j]);
    }
}

proof fn lemma_step_keeps(
    st: (Seq<Seq<char>>, Seq<char>),
    line: Seq<char>,
    max: nat,
    overlap: nat,
    u: Seq<char>,
)
    requires
        solid(trim(u)),
        unit_placed(st, u),
    ensures
        unit_placed(chunk_step(st, line, max, overlap), u),
{
    let st2 = chunk_step(st, line, max, overlap);
    let fired = st.1.len() > 0 && st.1.len() + line.len() > max;
    let st1 = if fired {
        (st.0.push(trim(st.1)), carry_over(st.1, overlap))
    } else {
        st
    };
    if !fired {
        assert(st1.1 =~= st.1 + Seq::<char>::empty());
    }
    lemma_placed_after(st, st1, u);
    if line.len() <= max {
        assert(st2.1 == st1.1 + line.push('\n'));
        lemma_placed_after(st1, st2, u);
    } else {
        let q = pack_sentences(st1, sentences(line), max, overlap);
        lemma_pack_keeps(st1, sentences(line), max, overlap, u);
        assert(st2.1 == q.1 + seq!['\n']);
        lemma_placed_after(q, st2, u);
    }
}

proof fn lemma_run_units_whole(lines: Seq<Seq<char>>, max: nat, overlap: nat)
    requires
        forall|i: int| 0 <= i < lines.len() ==> solid(#[trigger] lines[i]),
    ensures
        units_whole(lines, max, chunk_run(lines, max, overlap)),
    decreases lines.len(),
{
    if lines.len() > 0 {
        let pre = lines.drop_last();
        assert forall|i: int| 0 <= i < pre.len() implies solid(#[trigger] pre[i]) by {
            assert(pre[i] == lines[i]);
        }
        lemma_run_units_whole(pre, max, overlap);
        let st = chunk_run(pre, max, overlap);
        let l = lines.last();
        assert(solid(l)) by {
            assert(l == lines[lines.len() - 1]);
        }
        let st2 = chunk_run(lines, max, overlap);
        assert(st2 == chunk_step(st, l, max, overlap));
        assert forall|i: int, j: int|
            0 <= i < lines.len() && 0 <= j < line_units(lines[i], max).len() implies #[trigger] unit_placed(
            st2,
            line_units(lines[i], max)[j],
        ) by {
            let u = line_units(lines[i], max)[j];
            assert(solid(lines[i]));
            lemma_units_have_text(lines[i], max);
            if i < pre.len() {
                assert(lines[i] == pre[i]);
                assert(unit_placed(st, line_units(pre[i], max)[j]));
                lemma_step_keeps(st, l, max, overlap, u);
            } else {
                assert(lines[i] == l);
                if l.len() <= max {
                    assert(u == l);
                    lemma_trim_solid(l);
                    let fired = st.1.len() > 0 && st.1.len() + l.len() > max;
                    let st1 = if fired {
                        (st.0.push(trim(st.1)), carry_over(st.1, overlap))
                    } else {
                        st
                    };
                    assert(st2.1 =~= st1.1 + (l + seq!['\n']));
                    let z: int = 0;
                    assert((l + seq!['\n']).subrange(z, z + l.len()) =~= l);
                    lemma_suffix_keeps(st1.1, l + seq!['\n'], l);
                } else {
                    let fired = st.1.len() > 0 && st.1.len() + l.len() > max;
                    let st1 = if fired {
                        (st.0.push(trim(st.1)), carry_over(st.1, overlap))
                    } else {
                        st
                    };
                    let q = pack_sentences(st1, sentences(l), max, overlap);
                    lemma_pack_places(st1, sentences(l), max, overlap, j);
                    assert(st2.1 == q.1 + seq!['\n']);
                    lemma_placed_after(q, st2, u);
                }
            }
        }
    }
}

/// Chunking never cuts inside a sentence: every unit of the text (each
/// non-blank line, trimmed, that fits in a chunk, and each sentence of a
/// longer line) lies whole, trimmed, within some chunk, whatever the limits.
pub proof fn lemma_units_stay_whole(text: Seq<char>, max: nat, overlap: nat)
    ensures
        forall|i: int, j: int|
            0 <= i < content_lines(text).len() && 0 <= j < line_units(content_lines(text)[i], max).len()
                ==> in_some_chunk(
                chunks_of(text, max, overlap),
                trim(#[trigger] line_units(content_lines(text)[i], max)[j]),
            ),
{
    let ls = content_lines(text);
    lemma_kept_lines_solid(split_char(text, '\n'));
    lemma_run_units_whole(ls, max, overlap);
    let st = chunk_run(ls, max, overlap);
    assert forall|i: int, j: int|
        0 <= i < ls.len() && 0 <= j < line_units(ls[i], max).len() implies in_some_chunk(
        chunks_of(text, max, overlap),
        trim(#[trigger] line_units(ls[i], max)[j]),
    ) by {
        let u = line_units(ls[i], max)[j];
        lemma_units_have_text(ls[i], max);
        assert(unit_placed(st, u));
        if contains_seq(st.1, trim(u)) {
            lemma_trim_keeps_solid(st.1, trim(u));
            let i0 = choose|i0: int|
                0 <= i0 && i0 + trim(u).len() <= trim(st.1).len() && #[trigger] trim(st.1).subrange(
                    i0,
                    i0 + trim(u).len(),
                ) == trim(u);
            assert(trim(st.1).len() > 0);
            lemma_close_keeps(st.0, st.1, trim(u));
        } else {
            let k = choose|k: int| 0 <= k < st.0.len() && contains_seq(#[trigger] st.0[k], trim(u));
            if trim(st.1).len() > 0 {
                assert(st.0.push(trim(st.1))[k] == st.0[k]);
            }
        }
    }
}

/// When every line fits in a chunk, chunking never splits a line: every
/// non-blank line of the text, trimmed, lies whole within some chunk,
/// whatever the overlap.
pub proof fn lemma_lines_stay_whole(text: Seq<char>, max: nat, overlap: nat)
    requires
        forall|i: int|
            0 <= i < content_lines(text).len() ==> #[trigger] content_lines(text)[i].len() <= max,
    ensures
        forall|i: int|
            0 <= i < content_lines(text).len() ==> in_some_chunk(
                chunks_of(text, max, overlap),
                #[trigger] content_lines(text)[i],
            ),
{
    let ls = content_lines(text);
    lemma_units_stay_whole(text, max, overlap);
    lemma_kept_lines_solid(split_char(text, '\n'));
    assert forall|i: int| 0 <= i < ls.len() implies in_some_chunk(
        chunks_of(text, max, overlap),
        #[trigger] ls[i],
    ) by {
        assert(line_units(ls[i], max)[0] == ls[i]);
        lemma_trim_solid(ls[i]);
    }
}

proof fn lemma_split_has_text(s: Seq<char>)
    requires
        forall|i: int|
            0 <= i < split_char(s, '\n').len() ==> all_ws(#[trigger] split_char(s, '\n')[i]),
    ensures
        all_ws(s),
    decreases s.len(),
{
    if s.len() > 0 {
        let pre = s.drop_last();
        let rest = split_char(pre, '\n');
        let ps = split_char(s, '\n');
        lemma_split_char_len(pre, '\n');
        if s.last() == '\n' {
            assert forall|i: int| 0 <= i < rest.len() implies all_ws(#[trigger] rest[i]) by {
                assert(ps[i] == rest[i]);
            }
        } else {
            let p = rest.last().push(s.last());
            assert(ps[rest.len() - 1] == p);
            assert(all_ws(p));
            assert forall|i: int| 0 <= i < rest.len() implies all_ws(#[trigger] rest[i]) by {
                if i < rest.len() - 1 {
                    assert(ps[i] == rest[i]);
                } else {
                    assert forall|k: int| 0 <= k < rest[i].len() implies is_ws(#[trigger] rest[i][k]) by {
                        assert(p[k] == rest[i][k]);
                    }
                }
            }
            assert(is_ws(p[p.len() - 1]));
        }
        lemma_split_has_text(pre);
        assert forall|i: int| 0 <= i < s.len() implies is_ws(#[trigger] s[i]) by {
            if i < s.len() - 1 {
                assert(s[i] == pre[i]);
            }
        }
    }
}

proof fn lemma_kept_lines_nonempty(ps: Seq<Seq<char>>, k: int)
    requires
        0 <= k < ps.len(),
        !all_ws(ps[k]),
    ensures
        kept_lines(ps).len() > 0,
    decreases ps.len(),
{
    let pre = ps.drop_last();
    if k < ps.len() - 1 {
        assert(pre[k] == ps[k]);
        lemma_kept_lines_nonempty(pre, k);
    } else {
        lemma_trim_empty_iff_all_ws(ps.last());
    }
}

/// Text that holds something other than white space gives at least one
/// chunk, whatever the limits.
pub proof fn lemma_text_has_chunks(text: Seq<char>, max: nat, overlap: nat)
    requires
        !all_ws(text),
    ensures
        chunks_of(text, max, overlap).len() > 0,
{
    let ps = split_char(text, '\n');
    if forall|i: int| 0 <= i < ps.len() ==> all_ws(#[trigger] ps[i]) {
        lemma_split_has_text(text);
    }
    let k = choose|i: int| 0 <= i < ps.len() && !all_ws(#[trigger] ps[i]);
    lemma_kept_lines_nonempty(ps, k);
    let ls = content_lines(text);
    lemma_units_stay_whole(text, max, overlap);
    lemma_sentences_shape(ls[0]);
    assert(line_units(ls[0], max).len() > 0);
    assert(in_some_chunk(chunks_of(text, max, overlap), trim(line_units(ls[0], max)[0])));
}

/// The characters of `s` that are not white space, in order.
pub open spec fn ink(s: Seq<char>) -> Seq<char>
    decreases s.len(),
{
    if s.len() == 0 {
        Seq::empty()
    } else if is_ws(s.last()) {
        ink(s.drop_last())
    } else {
        ink(s.drop_last()).push(s.last())
    }
}

/// The characters other than white space of the chunks `cs`, read one after
/// the other.
pub open spec fn ink_all(cs: Seq<Seq<char>>) -> Seq<char>
    decreases cs.len(),
{
    if cs.len() == 0 {
        Seq::empty()
    } else {
        ink_all(cs.drop_last()) + ink(cs.last())
    }
}

proof fn lemma_ink_add(a: Seq<char>, b: Seq<char>)
    ensures
        ink(a + b) == ink(a) + ink(b),
    decreases b.len(),
{
    if b.len() == 0 {
        assert(a + b =~= a);
        assert(ink(a) + ink(b) =~= ink(a));
    } else {
        lemma_ink_add(a, b.drop_last());
        assert((a + b).drop_last() =~= a + b.drop_last());
        assert((a + b).last() == b.last());
        if !is_ws(b.last()) {
            assert((ink(a) + ink(b.drop_last())).push(b.last()) =~= ink(a) + ink(b.drop_last()).push(
                b.last(),
            ));
        }
    }
}

proof fn lemma_ink_blank(s: Seq<char>)
    requires
        all_ws(s),
    ensures
        ink(s) == Seq::<char>::empty(),
    decreases s.len(),
{
    if s.len() > 0 {
        let pre = s.drop_last();
        assert forall|i: int| 0 <= i < pre.len() implies is_ws(#[trigger] pre[i]) by {
            assert(pre[i] == s[i]);
        }
        lemma_ink_blank(pre);
        assert(is_ws(s[s.len() - 1]));
    }
}

proof fn lemma_ink_trim(s: Seq<char>)
    ensures
        ink(trim(s)) == ink(s),
{
    let u = trim_start(s);
    lemma_trim_start_shape(s);
    lemma_trim_end_shape(u);
    let k = choose|k: int|
        0 <= k <= s.len() && #[trigger] s.skip(k) == trim_start(s) && (forall|i: int|
            0 <= i < k ==> is_ws(#[trigger] s[i]));
    let j = choose|j: int|
        0 <= j <= u.len() && #[trigger] u.take(j) == trim_end(u) && (forall|i: int|
            j <= i < u.len() ==> is_ws(#[trigger] u[i]));
    assert(s =~= s.take(k) + s.skip(k));
    assert(u =~= u.take(j) + u.skip(j));
    assert forall|i: int| 0 <= i < s.take(k).len() implies is_ws(#[trigger] s.take(k)[i]) by {
        assert(s.take(k)[i] == s[i]);
    }
    assert forall|i: int| 0 <= i < u.skip(j).len() implies is_ws(#[trigger] u.skip(j)[i]) by {
        assert(u.skip(j)[i] == u[j + i]);
    }
    lemma_ink_blank(s.take(k));
    lemma_ink_blank(u.skip(j));
    lemma_ink_add(s.take(k), s.skip(k));
    lemma_ink_add(u.take(j), u.skip(j));
    assert(ink(s) =~= ink(u));
    assert(ink(u) =~= ink(u.take(j)));
}

proof fn lemma_concat_update_last(ps: Seq<Seq<char>>, c: char)
    requires
        ps.len() > 0,
    ensures
        concat_pieces(ps.update(ps.len() - 1, ps.last().push(c))) == concat_pieces(ps).push(c),
{
    let r = ps.update(ps.len() - 1, ps.last().push(c));
    assert(r.drop_last() =~= ps.drop_last());
    assert(r.last() == ps.last().push(c));
    assert(concat_pieces(ps.drop_last()) + ps.last().push(c) =~= (concat_pieces(ps.drop_last())
        + ps.last()).push(c));
}

/// Splitting at line breaks drops only the line breaks.
proof fn lemma_ink_split(s: Seq<char>)
    ensures
        ink(concat_pieces(split_char(s, '\n'))) == ink(s),
    decreases s.len(),
{
    if s.len() == 0 {
        let r = seq![Seq::<char>::empty()];
        assert(r.drop_last() =~= Seq::<Seq<char>>::empty());
        assert(concat_pieces(Seq::<Seq<char>>::empty()) == Seq::<char>::empty());
        assert(concat_pieces(r) == concat_pieces(r.drop_last()) + r.last());
        assert(concat_pieces(r) =~= Seq::<char>::empty());
    } else {
        let pre = s.drop_last();
        let rest = split_char(pre, '\n');
        lemma_ink_split(pre);
        lemma_split_char_len(pre, '\n');
        if s.last() == '\n' {
            let r = rest.push(Seq::<char>::empty());
            assert(r.drop_last() =~= rest);
            assert(concat_pieces(r) =~= concat_pieces(rest));
            assert(is_ws(s.last()));
        } else {
            lemma_concat_update_last(rest, s.last());
            lemma_ink_add(concat_pieces(rest), seq![s.last()]);
            lemma_ink_add(pre, seq![s.last()]);
            assert(concat_pieces(rest).push(s.last()) =~= concat_pieces(rest) + seq![s.last()]);
            assert(s =~= pre + seq![s.last()]);
        }
    }
}

/// Keeping the trimmed lines that hold text drops only white space.
proof fn lemma_ink_kept(ps: Seq<Seq<char>>)
    ensures
        ink(concat_pieces(kept_lines(ps))) == ink(concat_pieces(ps)),
    decreases ps.len(),
{
    if ps.len() > 0 {
        let pre = ps.drop_last();
        let rest = kept_lines(pre);
        lemma_ink_kept(pre);
        lemma_ink_add(concat_pieces(pre), ps.last());
        lemma_ink_trim(ps.last());
        if trim(ps.last()).len() > 0 {
            let r = rest.push(trim(ps.last()));
            assert(r.drop_last() =~= rest);
            lemma_ink_add(concat_pieces(rest), trim(ps.last()));
        } else {
            lemma_trim_empty_iff_all_ws(ps.last());
            lemma_ink_blank(ps.last());
            assert(ink(concat_pieces(pre)) + ink(ps.last()) =~= ink(concat_pieces(pre)));
        }
    }
}

proof fn lemma_ink_close(cs: Seq<Seq<char>>, cur: Seq<char>)
    ensures
        ink_all(cs.push(trim(cur))) == ink_all(cs) + ink(cur),
{
    assert(cs.push(trim(cur)).drop_last() =~= cs);
    lemma_ink_trim(cur);
}

proof fn lemma_ink_pack(st: (Seq<Seq<char>>, Seq<char>), ps: Seq<Seq<char>>, max: nat)
    ensures
        ink_all(pack_sentences(st, ps, max, 0).0) + ink(pack_sentences(st, ps, max, 0).1) == ink_all(
            st.0,
        ) + ink(st.1) + ink(concat_pieces(ps)),
    decreases ps.len(),
{
    if ps.len() == 0 {
        assert(ink(concat_pieces(ps)) =~= Seq::<char>::empty());
        assert(ink_all(st.0) + ink(st.1) + Seq::<char>::empty() =~= ink_all(st.0) + ink(st.1));
    } else if ps.len() == 1 {
        assert(ps.drop_last() =~= Seq::<Seq<char>>::empty());
        assert(concat_pieces(Seq::<Seq<char>>::empty()) == Seq::<char>::empty());
        assert(concat_pieces(ps) == concat_pieces(ps.drop_last()) + ps.last());
        assert(concat_pieces(ps) =~= ps[0]);
        lemma_ink_add(st.1, ps[0]);
        assert(ink_all(st.0) + (ink(st.1) + ink(ps[0])) =~= ink_all(st.0) + ink(st.1) + ink(ps[0]));
    } else {
        let pre = ps.drop_last();
        let p = ps.last();
        lemma_ink_pack(st, pre, max);
        let q = pack_sentences(st, pre, max, 0);
        lemma_ink_add(concat_pieces(pre), p);
        if q.1.len() > 0 && q.1.len() + p.len() > max {
            lemma_ink_close(q.0, q.1);
            assert(overlap_tail(q.1, 0) =~= Seq::<char>::empty());
            assert(Seq::<char>::empty() + p =~= p);
            assert(ink_all(q.0) + ink(q.1) + ink(p) =~= ink_all(q.0.push(trim(q.1))) + ink(p));
        } else {
            lemma_ink_add(q.1, p);
        }
        assert(ink_all(st.0) + ink(st.1) + (ink(concat_pieces(pre)) + ink(p)) =~= ink_all(st.0)
            + ink(st.1) + ink(concat_pieces(pre)) + ink(p));
        assert(ink_all(q.0) + (ink(q.1) + ink(p)) =~= ink_all(q.0) + ink(q.1) + ink(p));
    }
}

proof fn lemma_ink_run(lines: Seq<Seq<char>>, max: nat)
    ensures
        ink_all(chunk_run(lines, max, 0).0) + ink(chunk_run(lines, max, 0).1) == ink(
            concat_pieces(lines),
        ),
    decreases lines.len(),
{
    if lines.len() == 0 {
        assert(ink_all(Seq::<Seq<char>>::empty()) + ink(Seq::<char>::empty()) =~= Seq::<char>::empty());
    } else {
        let pre = lines.drop_last();
        let l = lines.last();
        lemma_ink_run(pre, max);
        let st = chunk_run(pre, max, 0);
        let st2 = chunk_run(lines, max, 0);
        lemma_ink_add(concat_pieces(pre), l);
        let nl = seq!['\n'];
        assert(is_ws('\n'));
        assert(ink(nl) =~= Seq::<char>::empty()) by {
            assert(nl.drop_last() =~= Seq::<char>::empty());
            assert(nl.last() == '\n');
            assert(is_ws(nl.last()));
            assert(ink(Seq::<char>::empty()) == Seq::<char>::empty());
            assert(ink(nl) == ink(nl.drop_last()));
        }
        let fired = st.1.len() > 0 && st.1.len() + l.len() > max;
        let st1 = if fired {
            (st.0.push(trim(st.1)), carry_over(st.1, 0))
        } else {
            st
        };
        if fired {
            lemma_ink_close(st.0, st.1);
            assert(overlap_tail(st.1, 0) =~= Seq::<char>::empty());
            assert(carry_over(st.1, 0) =~= Seq::<char>::empty());
        }
        assert(ink_all(st1.0) + ink(st1.1) == ink_all(st.0) + ink(st.1)) by {
            if fired {
                assert(ink(Seq::<char>::empty()) == Seq::<char>::empty());
                assert(ink_all(st1.0) + Seq::<char>::empty() =~= ink_all(st1.0));
            }
        }
        if l.len() <= max {
            assert(st2.1 =~= st1.1 + l + nl);
            lemma_ink_add(st1.1 + l, nl);
            lemma_ink_add(st1.1, l);
            assert(ink_all(st1.0) + (ink(st1.1) + ink(l) + Seq::<char>::empty()) =~= ink_all(st1.0)
                + ink(st1.1) + ink(l));
            assert(ink_all(st.0) + ink(st.1) + ink(l) =~= ink_all(st1.0) + ink(st1.1) + ink(l));
        } else {
            let q = pack_sentences(st1, sentences(l), max, 0);
            lemma_ink_pack(st1, sentences(l), max);
            lemma_sentences_rejoin(l);
            assert(st2.1 =~= q.1 + nl);
            lemma_ink_add(q.1, nl);
            assert(ink(q.1) + Seq::<char>::empty() =~= ink(q.1));
            assert(ink_all(q.0) + (ink(q.1) + Seq::<char>::empty()) =~= ink_all(q.0) + ink(q.1));
        }
    }
}

/// Without overlap nothing is lost or repeated, whatever the chunk size and
/// however long the lines: the chunks, read one after the other, hold
/// exactly the characters of the text other than white space, in order.
pub proof fn lemma_no_text_lost(text: Seq<char>, max: nat)
    ensures
        ink_all(chunks_of(text, max, 0)) == ink(text),
{
    let ls = content_lines(text);
    lemma_ink_run(ls, max);
    lemma_ink_kept(split_char(text, '\n'));
    lemma_ink_split(text);
    let st = chunk_run(ls, max, 0);
    if trim(st.1).len() > 0 {
        lemma_ink_close(st.0, st.1);
    } else {
        lemma_trim_empty_iff_all_ws(st.1);
        lemma_ink_blank(st.1);
        assert(ink_all(st.0) + ink(st.1) =~= ink_all(st.0));
    }
}

/// No chunk in `cs` is empty.
pub open spec fn none_empty(cs: Seq<Seq<char>>) -> bool {
    forall|i: int| 0 <= i < cs.len() ==> #[trigger] cs[i].len() > 0
}

/// The state holds no empty chunk, and its current chunk is empty or holds
/// text.
spec fn state_has_text(st: (Seq<Seq<char>>, Seq<char>)) -> bool {
    none_empty(st.0) && (st.1.len() == 0 || !all_ws(st.1))
}

proof fn lemma_text_after(a: Seq<char>, b: Seq<char>)
    requires
        !all_ws(b),
    ensures
        !all_ws(a + b),
{
    let i = choose|i: int| 0 <= i < b.len() && !is_ws(#[trigger] b[i]);
    assert((a + b)[a.len() + i] == b[i]);
}

proof fn lemma_close_has_text(cs: Seq<Seq<char>>, cur: Seq<char>)
    requires
        none_empty(cs),
        !all_ws(cur),
    ensures
        none_empty(cs.push(trim(cur))),
{
    lemma_trim_empty_iff_all_ws(cur);
    assert forall|i: int| 0 <= i < cs.push(trim(cur)).len() implies #[trigger] cs.push(
        trim(cur),
    )[i].len() > 0 by {
        if i < cs.len() {
            assert(cs.push(trim(cur))[i] == cs[i]);
        }
    }
}

proof fn lemma_pack_has_text(
    st: (Seq<Seq<char>>, Seq<char>),
    ps: Seq<Seq<char>>,
    max: nat,
    overlap: nat,
)
    requires
        none_empty(st.0),
        forall|j: int| 0 <= j < ps.len() ==> !all_ws(#[trigger] ps[j]),
    ensures
        none_empty(pack_sentences(st, ps, max, overlap).0),
        ps.len() > 0 ==> !all_ws(pack_sentences(st, ps, max, overlap).1),
    decreases ps.len(),
{
    if ps.len() == 1 {
        assert(!all_ws(ps[0]));
        lemma_text_after(st.1, ps[0]);
    } else if ps.len() > 1 {
        let pre = ps.drop_last();
        assert forall|j: int| 0 <= j < pre.len() implies !all_ws(#[trigger] pre[j]) by {
            assert(pre[j] == ps[j]);
        }
        lemma_pack_has_text(st, pre, max, overlap);
        let q = pack_sentences(st, pre, max, overlap);
        let p = ps.last();
        assert(!all_ws(p)) by {
            assert(p == ps[ps.len() - 1]);
        }
        if q.1.len() > 0 && q.1.len() + p.len() > max {
            lemma_close_has_text(q.0, q.1);
            lemma_text_after(overlap_tail(q.1, overlap), p);
        } else {
            lemma_text_after(q.1, p);
        }
    }
}

proof fn lemma_run_has_text(lines: Seq<Seq<char>>, max: nat, overlap: nat)
    requires
        forall|i: int| 0 <= i < lines.len() ==> solid(#[trigger] lines[i]),
    ensures
        state_has_text(chunk_run(lines, max, overlap)),
    decreases lines.len(),
{
    if lines.len() > 0 {
        let pre = lines.drop_last();
        assert forall|i: int| 0 <= i < pre.len() implies solid(#[trigger] pre[i]) by {
            assert(pre[i] == lines[i]);
        }
        lemma_run_has_text(pre, max, overlap);
        let st = chunk_run(pre, max, overlap);
        let l = lines.last();
        assert(solid(l)) by {
            assert(l == lines[lines.len() - 1]);
        }
        let st2 = chunk_run(lines, max, overlap);
        let fired = st.1.len() > 0 && st.1.len() + l.len() > max;
        let st1 = if fired {
            (st.0.push(trim(st.1)), carry_over(st.1, overlap))
        } else {
            st
        };
        if fired {
            lemma_close_has_text(st.0, st.1);
        }
        assert(none_empty(st1.0));
        if l.len() <= max {
            assert(!all_ws(l + seq!['\n'])) by {
                assert((l + seq!['\n'])[0] == l[0]);
            }
            assert(st2.1 =~= st1.1 + (l + seq!['\n']));
            lemma_text_after(st1.1, l + seq!['\n']);
        } else {
            let ps = sentences(l);
            lemma_units_have_text(l, max);
            assert forall|j: int| 0 <= j < ps.len() implies !all_ws(#[trigger] ps[j]) by {
                assert(line_units(l, max)[j] == ps[j]);
                assert(solid(trim(ps[j])));
                lemma_trim_empty_iff_all_ws(ps[j]);
            }
            lemma_sentences_shape(l);
            lemma_pack_has_text(st1, ps, max, overlap);
            let q = pack_sentences(st1, ps, max, overlap);
            assert(st2.1 == q.1 + seq!['\n']);
            let i = choose|i: int| 0 <= i < q.1.len() && !is_ws(#[trigger] q.1[i]);
            assert(st2.1[i] == q.1[i]);
        }
    }
}

/// No chunk is empty: every chunk holds some text.
pub proof fn lemma_no_empty_chunk(text: Seq<char>, max: nat, overlap: nat)
    ensures
        none_empty(chunks_of(text, max, overlap)),
{
    let ls = content_lines(text);
    lemma_kept_lines_solid(split_char(text, '\n'));
    lemma_run_has_text(ls, max, overlap);
    let st = chunk_run(ls, max, overlap);
    if trim(st.1).len() > 0 {
        assert forall|i: int| 0 <= i < st.0.push(trim(st.1)).len() implies #[trigger] st.0.push(
            trim(st.1),
        )[i].len() > 0 by {
            if i < st.0.len() {
                assert(st.0.push(trim(st.1))[i] == st.0[i]);
            }
        }
    }
}

/// How many units (lines that fit, and sentences of longer lines) `lines`
/// hold.
pub open spec fn unit_count(lines: Seq<Seq<char>>, max: nat) -> nat
    decreases lines.len(),
{
    if lines.len() == 0 {
        0
    } else {
        unit_count(lines.drop_last(), max) + line_units(lines.last(), max).len()
    }
}

/// Packing `ps` closes at most one chunk per sentence after the first.
proof fn lemma_pack_count(st: (Seq<Seq<char>>, Seq<char>), ps: Seq<Seq<char>>, max: nat, overlap: nat)
    ensures
        ps.len() == 0 ==> pack_sentences(st, ps, max, overlap) == st,
        ps.len() > 0 ==> pack_sentences(st, ps, max, overlap).0.len() + 1 <= st.0.len() + ps.len(),
    decreases ps.len(),
{
    if ps.len() > 1 {
        lemma_pack_count(st, ps.drop_last(), max, overlap);
    }
}

proof fn lemma_run_count(lines: Seq<Seq<char>>, max: nat, overlap: nat)
    ensures
        unit_count(lines, max) == 0 ==> chunk_run(lines, max, overlap).0.len() == 0
            && chunk_run(lines, max, overlap).1.len() == 0,
        unit_count(lines, max) > 0 ==> chunk_run(lines, max, overlap).0.len() + 1 <= unit_count(
            lines,
            max,
        ),
    decreases lines.len(),
{
    if lines.len() > 0 {
        let pre = lines.drop_last();
        let l = lines.last();
        lemma_run_count(pre, max, overlap);
        let st = chunk_run(pre, max, overlap);
        lemma_sentences_shape(l);
        let fired = st.1.len() > 0 && st.1.len() + l.len() > max;
        let st1 = if fired {
            (st.0.push(trim(st.1)), carry_over(st.1, overlap))
        } else {
            st
        };
        assert(line_units(l, max).len() >= 1) by {
            if l.len() > max {
                assert(l.len() > 0);
            }
        }
        if l.len() > max {
            lemma_pack_count(st1, sentences(l), max, overlap);
        }
    }
}

/// There are never more chunks than units: no more than the lines that
/// fit in a chunk plus the sentences of the longer lines.
pub proof fn lemma_chunk_count(text: Seq<char>, max: nat, overlap: nat)
    ensures
        chunks_of(text, max, overlap).len() <= unit_count(content_lines(text), max),
{
    let ls = content_lines(text);
    lemma_run_count(ls, max, overlap);
    let st = chunk_run(ls, max, overlap);
    if unit_count(ls, max) == 0 {
        assert(trim(st.1).len() == 0) by {
            lemma_trim_len(st.1);
        }
    }
}

} // verus!
