//! The keyword side of hybrid search: the keywords of a query and how many
//! of them a stored chunk matches.

use vstd::prelude::*;
use crate::text::{
    trim, split_char, split_chars, lowercase, contains_seq, chars_of, trim_chars, string_of,
    to_lowercase, contains_chars, texts, same_text,
};

verus! {

/// A comma-separated piece as a keyword: trimmed and lowercased, kept when
/// that leaves some text.
pub open spec fn keyword_of(piece: Seq<char>) -> Option<Seq<char>> {
    let k = lowercase(trim(piece));
    if k.len() > 0 {
        Some(k)
    } else {
        None
    }
}

/// The keywords of `pieces`, in order.
pub open spec fn keywords_of(pieces: Seq<Seq<char>>) -> Seq<Seq<char>>
    decreases pieces.len(),
{
    if pieces.len() == 0 {
        Seq::empty()
    } else {
        let rest = keywords_of(pieces.drop_last());
        match keyword_of(pieces.last()) {
            Some(k) => rest.push(k),
            None => rest,
        }
    }
}

/// The keywords of a search: the query and its expansion joined by `", "`,
/// split at commas, each piece trimmed and lowercased, empty ones dropped.
pub open spec fn search_keywords_of(query: Seq<char>, expanded: Seq<char>) -> Seq<Seq<char>> {
    keywords_of(split_char(query + ", "@ + expanded, ','))
}

/// The keywords of `pieces` are exactly the keywords of its pieces, in
/// order, each piece that trims to some text giving one: nothing is capped
/// or dropped besides the empty pieces.
pub proof fn lemma_keywords_are_each_piece(pieces: Seq<Seq<char>>)
    ensures
        keywords_of(pieces) == pieces.filter_map(|p: Seq<char>| keyword_of(p)),
    decreases pieces.len(),
{
    if pieces.len() > 0 {
        lemma_keywords_are_each_piece(pieces.drop_last());
        let f = |p: Seq<char>| keyword_of(p);
        let rest = pieces.drop_last().filter_map(f);
        match keyword_of(pieces.last()) {
            Some(k) => {
                assert(rest.push(k) =~= rest + seq![k]);
            },
            None => {},
        }
    }
}

/// A piece that trims to some text adds its keyword at the end, whatever
/// came before; a blank piece adds nothing.
pub proof fn lemma_keywords_push(pieces: Seq<Seq<char>>, p: Seq<char>)
    ensures
        keyword_of(p) matches Some(k) ==> keywords_of(pieces.push(p)) == keywords_of(pieces).push(k),
        keyword_of(p) is None ==> keywords_of(pieces.push(p)) == keywords_of(pieces),
{
    assert(pieces.push(p).drop_last() =~= pieces);
}

/// The keywords of two runs of pieces, one after the other, are the keywords
/// of each run, one after the other; in particular there are as many
/// keywords as pieces that trim to some text.
pub proof fn lemma_keywords_concat(a: Seq<Seq<char>>, b: Seq<Seq<char>>)
    ensures
        keywords_of(a + b) == keywords_of(a) + keywords_of(b),
    decreases b.len(),
{
    if b.len() == 0 {
        assert(a + b =~= a);
        assert(keywords_of(a) + keywords_of(b) =~= keywords_of(a));
    } else {
        lemma_keywords_concat(a, b.drop_last());
        assert((a + b).drop_last() =~= a + b.drop_last());
        assert((a + b).last() == b.last());
        match keyword_of(b.last()) {
            Some(k) => {
                assert((keywords_of(a) + keywords_of(b.drop_last())).push(k) =~= keywords_of(a)
                    + keywords_of(b.drop_last()).push(k));
            },
            None => {},
        }
    }
}

/// The number of keywords is the number of pieces that trim to some text.
pub proof fn lemma_keyword_count(pieces: Seq<Seq<char>>)
    ensures
        keywords_of(pieces).len() == pieces.filter(|p: Seq<char>| keyword_of(p) is Some).len(),
    decreases pieces.len(),
{
    let pred = |p: Seq<char>| keyword_of(p) is Some;
    if pieces.len() == 0 {
        reveal(Seq::filter);
    } else {
        let pre = pieces.drop_last();
        lemma_keyword_count(pre);
        pre.lemma_filter_push(pieces.last(), pred);
        assert(pre.push(pieces.last()) =~= pieces);
    }
}

/// The keywords of a search are those of every comma-separated piece of
/// the query and its expansion joined by `", "`, in order, as many as there
/// are pieces that trim to some text.
pub proof fn lemma_search_keywords_are_each_piece(query: Seq<char>, expanded: Seq<char>)
    ensures
        search_keywords_of(query, expanded) == split_char(query + ", "@ + expanded, ',').filter_map(
            |p: Seq<char>| keyword_of(p),
        ),
        search_keywords_of(query, expanded).len() == split_char(query + ", "@ + expanded, ',').filter(
            |p: Seq<char>| keyword_of(p) is Some,
        ).len(),
{
    lemma_keywords_are_each_piece(split_char(query + ", "@ + expanded, ','));
    lemma_keyword_count(split_char(query + ", "@ + expanded, ','));
}

/// The keywords of a search (see `search_keywords_of`).
pub fn search_keywords(query: &str, expanded_query: &str) -> (keywords: Vec<String>)
    ensures
        keywords@.len() == search_keywords_of(query@, expanded_query@).len(),
        forall|k: int|
            0 <= k < keywords@.len() ==> #[trigger] keywords@[k]@ == search_keywords_of(
                query@,
                expanded_query@,
            )[k],
{
    let mut joined = chars_of(query);
    joined.push(',');
    joined.push(' ');
    let mut rest = chars_of(expanded_query);
    joined.append(&mut rest);
    let ghost j = query@ + ", "@ + expanded_query@;
    proof {
        reveal_strlit(", ");
    }
    assert(joined@ =~= j);
    let pieces = split_chars(&joined, ',');
    let ghost sp = split_char(j, ',');
    let mut keywords: Vec<String> = Vec::new();
    let mut i: usize = 0;
    assert(sp.take(0) =~= Seq::<Seq<char>>::empty());
    while i < pieces.len()
        invariant
            sp == split_char(j, ','),
            j == query@ + ", "@ + expanded_query@,
            pieces@.len() == sp.len(),
            forall|k: int| 0 <= k < pieces@.len() ==> #[trigger] pieces@[k]@ == sp[k],
            i <= pieces@.len(),
            keywords@.len() == keywords_of(sp.take(i as int)).len(),
            forall|k: int|
                0 <= k < keywords@.len() ==> #[trigger] keywords@[k]@ == keywords_of(
                    sp.take(i as int),
                )[k],
        decreases pieces.len() - i,
    {
        let t = string_of(&trim_chars(&pieces[i]));
        let k = to_lowercase(t.as_str());
        assert(sp.take(i + 1).drop_last() =~= sp.take(i as int));
        assert(sp.take(i + 1).last() == pieces@[i as int]@);
        if !k.as_str().is_empty() {
            keywords.push(k);
        }
        i = i + 1;
    }
    assert(sp.take(pieces@.len() as int) =~= sp);
    keywords
}

/// How many of `keywords` a chunk matches: a keyword matches when it occurs
/// in the chunk's lowercased content or in its lowercased file name.
pub open spec fn hit_count(
    content_lower: Seq<char>,
    name_lower: Seq<char>,
    keywords: Seq<Seq<char>>,
) -> nat
    decreases keywords.len(),
{
    if keywords.len() == 0 {
        0
    } else {
        let k = keywords.last();
        hit_count(content_lower, name_lower, keywords.drop_last()) + if contains_seq(
            content_lower,
            k,
        ) || contains_seq(name_lower, k) {
            1nat
        } else {
            0nat
        }
    }
}

/// A keyword matches a chunk when it occurs in the chunk's lowercased
/// content or in its lowercased file name.
pub open spec fn keyword_matches(content_lower: Seq<char>, name_lower: Seq<char>, k: Seq<char>) -> bool {
    contains_seq(content_lower, k) || contains_seq(name_lower, k)
}

/// The hit count is the number of keywords, wherever they stand in the
/// list, that match the chunk: the length of the keywords kept by that test.
pub proof fn lemma_hit_count_counts_matches(
    content_lower: Seq<char>,
    name_lower: Seq<char>,
    keywords: Seq<Seq<char>>,
)
    ensures
        hit_count(content_lower, name_lower, keywords) == keywords.filter(
            |k: Seq<char>| keyword_matches(content_lower, name_lower, k),
        ).len(),
    decreases keywords.len(),
{
    let pred = |k: Seq<char>| keyword_matches(content_lower, name_lower, k);
    if keywords.len() == 0 {
        reveal(Seq::filter);
    } else {
        let pre = keywords.drop_last();
        lemma_hit_count_counts_matches(content_lower, name_lower, pre);
        pre.lemma_filter_push(keywords.last(), pred);
        assert(pre.push(keywords.last()) =~= keywords);
    }
}

/// Each keyword counts on its own: the hits of two lists of keywords, one
/// after the other, are the hits of each list added up. So the order of the
/// keywords does not matter, and a keyword that matches, put anywhere in
/// the list, raises the count by one.
pub proof fn lemma_hit_count_adds_up(
    content_lower: Seq<char>,
    name_lower: Seq<char>,
    a: Seq<Seq<char>>,
    b: Seq<Seq<char>>,
)
    ensures
        hit_count(content_lower, name_lower, a + b) == hit_count(content_lower, name_lower, a)
            + hit_count(content_lower, name_lower, b),
{
    let pred = |k: Seq<char>| keyword_matches(content_lower, name_lower, k);
    lemma_hit_count_counts_matches(content_lower, name_lower, a);
    lemma_hit_count_counts_matches(content_lower, name_lower, b);
    lemma_hit_count_counts_matches(content_lower, name_lower, a + b);
    Seq::filter_distributes_over_add(a, b, pred);
}

/// One keyword alone scores one hit when it matches and none when not.
pub proof fn lemma_hit_count_single(content_lower: Seq<char>, name_lower: Seq<char>, k: Seq<char>)
    ensures
        hit_count(content_lower, name_lower, seq![k]) == if keyword_matches(
            content_lower,
            name_lower,
            k,
        ) {
            1nat
        } else {
            0nat
        },
{
    let s = seq![k];
    assert(s.drop_last() =~= Seq::<Seq<char>>::empty());
    assert(s.last() == k);
    assert(hit_count(content_lower, name_lower, s.drop_last()) == 0);
}

/// The number of `keywords` found in a chunk whose lowercased content is
/// `content_lower` and whose file is named `file_name`.
pub fn keyword_hits(content_lower: &str, file_name: &str, keywords: &Vec<String>) -> (n: usize)
    ensures
        n == hit_count(content_lower@, lowercase(file_name@), texts(keywords@)),
        n <= keywords@.len(),
{
    let content = chars_of(content_lower);
    let name_lower = to_lowercase(file_name);
    let name = chars_of(name_lower.as_str());
    let mut n: usize = 0;
    let mut i: usize = 0;
    let ghost kv = texts(keywords@);
    assert(kv.take(0) =~= Seq::<Seq<char>>::empty());
    while i < keywords.len()
        invariant
            kv == texts(keywords@),
            content@ == content_lower@,
            name@ == lowercase(file_name@),
            i <= keywords@.len(),
            n <= i,
            n == hit_count(content@, name@, kv.take(i as int)),
        decreases keywords.len() - i,
    {
        let k = chars_of(keywords[i].as_str());
        assert(kv.take(i + 1).drop_last() =~= kv.take(i as int));
        assert(kv.take(i + 1).last() == k@);
        if contains_chars(&content, &k) || contains_chars(&name, &k) {
            n = n + 1;
        }
        i = i + 1;
    }
    assert(kv.take(keywords@.len() as int) =~= kv);
    n
}

/// The content stored under `id` in `rows` of `(id, content)`: that of the
/// last row with this id, if any.
pub open spec fn stored_content(rows: Seq<(String, String)>, id: Seq<char>) -> Option<Seq<char>>
    decreases rows.len(),
{
    if rows.len() == 0 {
        None
    } else if rows.last().0@ == id {
        Some(rows.last().1@)
    } else {
        stored_content(rows.drop_last(), id)
    }
}

/// The content given to the `i`-th of the ranked chunks `ids`: the stored
/// content of its id, taken out of the lookup table as it is handed out, so
/// an id that occurs again, or has no row, gets the empty text.
pub open spec fn content_at(ids: Seq<String>, rows: Seq<(String, String)>, i: int) -> Seq<char> {
    if exists|j: int| 0 <= j < i && #[trigger] ids[j]@ == ids[i]@ {
        Seq::empty()
    } else {
        match stored_content(rows, ids[i]@) {
            Some(c) => c,
            None => Seq::empty(),
        }
    }
}

fn find_content(rows: &Vec<(String, String)>, id: &str) -> (r: Option<usize>)
    ensures
        match stored_content(rows@, id@) {
            Some(c) => r matches Some(k) && k < rows@.len() && rows@[k as int].1@ == c,
            None => r is None,
        },
{
    let mut k: usize = rows.len();
    assert(rows@.take(k as int) =~= rows@);
    while k > 0
        invariant
            k <= rows@.len(),
            stored_content(rows@, id@) == stored_content(rows@.take(k as int), id@),
        decreases k,
    {
        let row = &rows[k - 1];
        assert(rows@.take(k as int).last() == rows@[k - 1]);
        if same_text(row.0.as_str(), id) {
            return Some(k - 1);
        }
        assert(rows@.take(k as int).drop_last() =~= rows@.take(k - 1));
        k = k - 1;
    }
    None
}

fn seen_before(ids: &Vec<String>, i: usize) -> (b: bool)
    requires
        i < ids@.len(),
    ensures
        b == exists|j: int| 0 <= j < i && #[trigger] ids@[j]@ == ids@[i as int]@,
{
    let mut j: usize = 0;
    while j < i
        invariant
            i < ids@.len(),
            j <= i,
            forall|m: int| 0 <= m < j ==> #[trigger] ids@[m]@ != ids@[i as int]@,
        decreases i - j,
    {
        if same_text(ids[j].as_str(), ids[i].as_str()) {
            return true;
        }
        j = j + 1;
    }
    false
}

/// The contents of the ranked chunks `ids`, looked up in the rows of
/// `(id, content)` read back from storage (see `content_at`).
pub fn contents_by_id(ids: &Vec<String>, rows: &Vec<(String, String)>) -> (contents: Vec<String>)
    ensures
        contents@.len() == ids@.len(),
        forall|i: int| 0 <= i < ids@.len() ==> #[trigger] contents@[i]@ == content_at(ids@, rows@, i),
{
    let mut contents: Vec<String> = Vec::new();
    let mut i: usize = 0;
    while i < ids.len()
        invariant
            i <= ids@.len(),
            contents@.len() == i,
            forall|m: int| 0 <= m < i ==> #[trigger] contents@[m]@ == content_at(ids@, rows@, m),
        decreases ids.len() - i,
    {
        let c = if seen_before(ids, i) {
            String::new()
        } else {
            match find_content(rows, ids[i].as_str()) {
                Some(k) => rows[k].1.clone(),
                None => String::new(),
            }
        };
        contents.push(c);
        i = i + 1;
    }
    contents
}

} // verus!
