//! Character-level text model: Unicode white space, trimming, and the
//! conversions between `str`/`String` and sequences of characters.

use vstd::prelude::*;
use vstd::string::StringExecFns;

verus! {

broadcast use vstd::string::group_string_axioms;

/// Unicode `White_Space`, the set that `char::is_whitespace` and `str::trim` use.
pub open spec fn is_ws(c: char) -> bool {
    let u = c as u32;
    ||| 0x09 <= u <= 0x0D
    ||| u == 0x20
    ||| u == 0x85
    ||| u == 0xA0
    ||| u == 0x1680
    ||| 0x2000 <= u <= 0x200A
    ||| u == 0x2028
    ||| u == 0x2029
    ||| u == 0x202F
    ||| u == 0x205F
    ||| u == 0x3000
}

/// `s` without its leading white space.
pub open spec fn trim_start(s: Seq<char>) -> Seq<char>
    decreases s.len(),
{
    if s.len() > 0 && is_ws(s[0]) {
        trim_start(s.drop_first())
    } else {
        s
    }
}

/// `s` without its trailing white space.
pub open spec fn trim_end(s: Seq<char>) -> Seq<char>
    decreases s.len(),
{
    if s.len() > 0 && is_ws(s.last()) {
        trim_end(s.drop_last())
    } else {
        s
    }
}

/// `s` without leading and trailing white space, as `str::trim` gives it.
pub open spec fn trim(s: Seq<char>) -> Seq<char> {
    trim_end(trim_start(s))
}

/// Every character of `s` is white space.
pub open spec fn all_ws(s: Seq<char>) -> bool {
    forall|i: int| 0 <= i < s.len() ==> is_ws(#[trigger] s[i])
}

/// Whether `c` is Unicode white space.
pub fn is_whitespace(c: char) -> (b: bool)
    ensures
        b == is_ws(c),
{
    let u = c as u32;
    (0x09 <= u && u <= 0x0D) || u == 0x20 || u == 0x85 || u == 0xA0 || u == 0x1680 || (0x2000
        <= u && u <= 0x200A) || u == 0x2028 || u == 0x2029 || u == 0x202F || u == 0x205F || u
        == 0x3000
}

/// Skipping a white-space character does not change what trimming the start leaves.
pub proof fn lemma_trim_start_skip(s: Seq<char>, i: int)
    requires
        0 <= i < s.len(),
        is_ws(s[i]),
    ensures
        trim_start(s.skip(i)) == trim_start(s.skip(i + 1)),
{
    assert(s.skip(i).drop_first() =~= s.skip(i + 1));
}

/// Dropping a trailing white-space character does not change what trimming the end leaves.
pub proof fn lemma_trim_end_take(s: Seq<char>, j: int)
    requires
        0 < j <= s.len(),
        is_ws(s[j - 1]),
    ensures
        trim_end(s.take(j)) == trim_end(s.take(j - 1)),
{
    assert(s.take(j).drop_last() =~= s.take(j - 1));
}

/// The trimmed text is empty exactly when the text is all white space.
pub proof fn lemma_trim_empty_iff_all_ws(s: Seq<char>)
    ensures
        trim(s).len() == 0 <==> all_ws(s),
{
    lemma_trim_start_empty_iff(s);
    let t = trim_start(s);
    lemma_trim_start_shape(s);
    if t.len() > 0 {
        lemma_trim_end_shape(t);
    }
}

/// Trimming the start leaves nothing exactly when the text is all white space.
pub proof fn lemma_trim_start_empty_iff(s: Seq<char>)
    ensures
        trim_start(s).len() == 0 <==> all_ws(s),
    decreases s.len(),
{
    if s.len() > 0 {
        lemma_trim_start_empty_iff(s.drop_first());
        if is_ws(s[0]) {
            if all_ws(s.drop_first()) {
                assert forall|i: int| 0 <= i < s.len() implies is_ws(#[trigger] s[i]) by {
                    if i > 0 {
                        assert(s[i] == s.drop_first()[i - 1]);
                    }
                }
            } else {
                let k = choose|k: int| 0 <= k < s.len() - 1 && !is_ws(#[trigger] s.drop_first()[k]);
                assert(s[k + 1] == s.drop_first()[k]);
            }
        }
    }
}

/// Trimming the start drops a prefix of white space and keeps a suffix that
/// starts with a non-white-space character (or is empty).
pub proof fn lemma_trim_start_shape(s: Seq<char>)
    ensures
        exists|k: int|
            0 <= k <= s.len() && #[trigger] s.skip(k) == trim_start(s) && (forall|i: int|
                0 <= i < k ==> is_ws(#[trigger] s[i])),
        trim_start(s).len() > 0 ==> !is_ws(trim_start(s)[0]),
    decreases s.len(),
{
    if s.len() > 0 && is_ws(s[0]) {
        lemma_trim_start_shape(s.drop_first());
        let k = choose|k: int|
            0 <= k <= s.drop_first().len() && #[trigger] s.drop_first().skip(k) == trim_start(
                s.drop_first(),
            ) && (forall|i: int| 0 <= i < k ==> is_ws(#[trigger] s.drop_first()[i]));
        assert(s.skip(k + 1) =~= s.drop_first().skip(k));
        assert forall|i: int| 0 <= i < k + 1 implies is_ws(#[trigger] s[i]) by {
            if i > 0 {
                assert(s[i] == s.drop_first()[i - 1]);
            }
        }
    } else {
        assert(s.skip(0) =~= s);
    }
}

/// Trimming the end drops a suffix of white space and keeps a prefix that
/// ends with a non-white-space character (or is empty).
pub proof fn lemma_trim_end_shape(s: Seq<char>)
    ensures
        exists|k: int|
            0 <= k <= s.len() && #[trigger] s.take(k) == trim_end(s) && (forall|i: int|
                k <= i < s.len() ==> is_ws(#[trigger] s[i])),
        trim_end(s).len() > 0 ==> !is_ws(trim_end(s).last()),
        trim_end(s).len() > 0 ==> trim_end(s)[0] == s[0],
    decreases s.len(),
{
    if s.len() > 0 && is_ws(s.last()) {
        lemma_trim_end_shape(s.drop_last());
        let k = choose|k: int|
            0 <= k <= s.drop_last().len() && #[trigger] s.drop_last().take(k) == trim_end(
                s.drop_last(),
            ) && (forall|i: int| k <= i < s.drop_last().len() ==> is_ws(#[trigger] s.drop_last()[i]));
        assert(s.take(k) =~= s.drop_last().take(k));
        assert forall|i: int| k <= i < s.len() implies is_ws(#[trigger] s[i]) by {
            if i < s.len() - 1 {
                assert(s[i] == s.drop_last()[i]);
            }
        }
    } else {
        assert(s.take(s.len() as int) =~= s);
    }
}

/// Trimming twice is trimming once.
pub proof fn lemma_trim_idempotent(s: Seq<char>)
    ensures
        trim(trim(s)) == trim(s),
{
    let u = trim_start(s);
    let t = trim_end(u);
    lemma_trim_start_shape(s);
    lemma_trim_end_shape(u);
    if t.len() > 0 {
        assert(trim_start(t) == t);
        assert(trim_end(t) == t);
    }
}

/// Trimming never makes a text longer, and it drops a trailing white space.
pub proof fn lemma_trim_len(s: Seq<char>)
    ensures
        trim(s).len() <= s.len(),
        s.len() > 0 && is_ws(s.last()) ==> trim(s).len() < s.len(),
{
    let u = trim_start(s);
    lemma_trim_start_shape(s);
    lemma_trim_end_shape(u);
    let k = choose|k: int|
        0 <= k <= s.len() && #[trigger] s.skip(k) == trim_start(s) && (forall|i: int|
            0 <= i < k ==> is_ws(#[trigger] s[i]));
    let j = choose|j: int|
        0 <= j <= u.len() && #[trigger] u.take(j) == trim_end(u) && (forall|i: int|
            j <= i < u.len() ==> is_ws(#[trigger] u[i]));
    if s.len() > 0 && is_ws(s.last()) && k == 0 && j == u.len() {
        assert(u.len() > 0);
        assert(u[u.len() - 1] == s.last());
    }
}

/// The characters of `v` without leading and trailing white space.
pub fn trim_chars(v: &Vec<char>) -> (r: Vec<char>)
    ensures
        r@ == trim(v@),
{
    let n = v.len();
    let mut i: usize = 0;
    assert(v@.skip(0) =~= v@);
    while i < n && is_whitespace(v[i])
        invariant
            n == v.len(),
            i <= n,
            trim_start(v@) == trim_start(v@.skip(i as int)),
        decreases n - i,
    {
        proof {
            lemma_trim_start_skip(v@, i as int);
        }
        i = i + 1;
    }
    let ghost t = v@.skip(i as int);
    assert(trim_start(v@) == t) by {
        if i < n {
            assert(t[0] == v@[i as int]);
        } else {
            assert(t.len() == 0);
        }
    }
    let mut j: usize = n;
    assert(t.take(t.len() as int) =~= t);
    while j > i && is_whitespace(v[j - 1])
        invariant
            n == v.len(),
            i <= j <= n,
            t == v@.skip(i as int),
            trim_end(t) == trim_end(t.take(j - i)),
        decreases j,
    {
        proof {
            assert(t[j - i - 1] == v@[j - 1]);
            lemma_trim_end_take(t, j - i);
        }
        j = j - 1;
    }
    let mut r: Vec<char> = Vec::new();
    let mut k: usize = i;
    while k < j
        invariant
            n == v.len(),
            i <= k <= j <= n,
            r@ =~= v@.subrange(i as int, k as int),
        decreases j - k,
    {
        r.push(v[k]);
        k = k + 1;
    }
    proof {
        let u = t.take(j - i);
        assert(u =~= v@.subrange(i as int, j as int));
        if j > i {
            assert(u.last() == v@[j - 1]);
        }
    }
    r
}

/// The characters of `s`, in order.
pub fn chars_of(s: &str) -> (r: Vec<char>)
    ensures
        r@ == s@,
{
    let mut r: Vec<char> = Vec::new();
    for c in it: s.chars()
        invariant
            r@ == it.seq().take(it.index() as int),
    {
        r.push(c);
    }
    assert(r@ =~= s@);
    r
}

/// `String::push`: appends the character `c` to the end of `s`.
#[verifier::external_body]
pub(crate) fn push_char(s: &mut String, c: char)
    ensures
        final(s)@ == old(s)@.push(c),
{
    s.push(c);
}

/// A `String` holding the characters of `v`.
pub fn string_of(v: &Vec<char>) -> (r: String)
    ensures
        r@ == v@,
{
    let mut r = String::new();
    let mut i: usize = 0;
    while i < v.len()
        invariant
            i <= v.len(),
            r@ =~= v@.take(i as int),
        decreases v.len() - i,
    {
        push_char(&mut r, v[i]);
        i = i + 1;
    }
    r
}

/// The pieces of `s` between `sep` separators: one more piece than there are
/// separators, the last one being the text after the last separator
/// (`str::split` with a character pattern).
pub open spec fn split_char(s: Seq<char>, sep: char) -> Seq<Seq<char>>
    decreases s.len(),
{
    if s.len() == 0 {
        seq![Seq::<char>::empty()]
    } else {
        let rest = split_char(s.drop_last(), sep);
        if s.last() == sep {
            rest.push(Seq::<char>::empty())
        } else {
            rest.update(rest.len() - 1, rest.last().push(s.last()))
        }
    }
}

/// Splitting always gives at least one piece.
pub proof fn lemma_split_char_len(s: Seq<char>, sep: char)
    ensures
        split_char(s, sep).len() >= 1,
    decreases s.len(),
{
    if s.len() > 0 {
        lemma_split_char_len(s.drop_last(), sep);
    }
}

/// The pieces of `v` between `sep` separators.
pub fn split_chars(v: &Vec<char>, sep: char) -> (pieces: Vec<Vec<char>>)
    ensures
        pieces@.len() == split_char(v@, sep).len(),
        forall|k: int| 0 <= k < pieces@.len() ==> #[trigger] pieces@[k]@ == split_char(v@, sep)[k],
{
    let n = v.len();
    let mut pieces: Vec<Vec<char>> = Vec::new();
    let mut cur: Vec<char> = Vec::new();
    let mut i: usize = 0;
    while i < n
        invariant
            n == v@.len(),
            i <= n,
            split_char(v@.take(i as int), sep).len() >= 1,
            cur@ == split_char(v@.take(i as int), sep).last(),
            pieces@.len() + 1 == split_char(v@.take(i as int), sep).len(),
            forall|k: int|
                0 <= k < pieces@.len() ==> #[trigger] pieces@[k]@ == split_char(
                    v@.take(i as int),
                    sep,
                )[k],
        decreases n - i,
    {
        let c = v[i];
        assert(v@.take(i + 1).drop_last() =~= v@.take(i as int));
        proof {
            lemma_split_char_len(v@.take(i + 1), sep);
        }
        if c == sep {
            pieces.push(cur);
            cur = Vec::new();
        } else {
            cur.push(c);
        }
        i = i + 1;
    }
    assert(v@.take(n as int) =~= v@);
    pieces.push(cur);
    pieces
}

/// The character sequences held by a list of strings.
pub open spec fn texts(v: Seq<String>) -> Seq<Seq<char>> {
    Seq::new(v.len(), |i: int| v[i]@)
}

/// `items` joined with line breaks (`items.join("\n")`).
pub open spec fn joined_lines(items: Seq<Seq<char>>) -> Seq<char>
    decreases items.len(),
{
    if items.len() == 0 {
        Seq::empty()
    } else if items.len() == 1 {
        items[0]
    } else {
        joined_lines(items.drop_last()) + "\n"@ + items.last()
    }
}

/// `pre + item + post` for every item, one after the other.
pub open spec fn concat_wrapped(items: Seq<Seq<char>>, pre: Seq<char>, post: Seq<char>) -> Seq<char>
    decreases items.len(),
{
    if items.len() == 0 {
        Seq::empty()
    } else {
        concat_wrapped(items.drop_last(), pre, post) + pre + items.last() + post
    }
}

/// `t` written `n` times.
pub open spec fn repeat_text(t: Seq<char>, n: nat) -> Seq<char>
    decreases n,
{
    if n == 0 {
        Seq::empty()
    } else {
        repeat_text(t, (n - 1) as nat) + t
    }
}

/// Appends `pre + item + post` to `out` for every item of `items`.
pub fn push_wrapped(out: &mut String, items: &Vec<String>, pre: &str, post: &str)
    ensures
        final(out)@ == old(out)@ + concat_wrapped(texts(items@), pre@, post@),
{
    let ghost o = out@;
    let ghost iv = texts(items@);
    let mut i: usize = 0;
    assert(iv.take(0) =~= Seq::<Seq<char>>::empty());
    assert(out@ =~= o + concat_wrapped(iv.take(0), pre@, post@));
    while i < items.len()
        invariant
            iv == texts(items@),
            i <= items@.len(),
            out@ =~= o + concat_wrapped(iv.take(i as int), pre@, post@),
        decreases items.len() - i,
    {
        out.append(pre);
        out.append(items[i].as_str());
        out.append(post);
        assert(iv.take(i + 1).drop_last() =~= iv.take(i as int));
        i = i + 1;
    }
    assert(iv.take(items@.len() as int) =~= iv);
}

/// Appends `t` to `out`, `n` times.
pub fn push_repeated(out: &mut String, t: &str, n: usize)
    ensures
        final(out)@ == old(out)@ + repeat_text(t@, n as nat),
{
    let ghost o = out@;
    let mut i: usize = 0;
    assert(out@ =~= o + repeat_text(t@, 0));
    while i < n
        invariant
            i <= n,
            out@ =~= o + repeat_text(t@, i as nat),
        decreases n - i,
    {
        out.append(t);
        i = i + 1;
    }
}

/// `t` occurs in `s` as a contiguous run of characters.
pub open spec fn contains_seq(s: Seq<char>, t: Seq<char>) -> bool {
    exists|i: int| 0 <= i && i + t.len() <= s.len() && #[trigger] s.subrange(i, i + t.len()) == t
}

/// `s` ends with `t`.
pub open spec fn ends_with_seq(s: Seq<char>, t: Seq<char>) -> bool {
    t.len() <= s.len() && s.subrange(s.len() - t.len(), s.len() as int) == t
}

/// `s` without all of its trailing `c` characters.
pub open spec fn trim_end_char(s: Seq<char>, c: char) -> Seq<char>
    decreases s.len(),
{
    if s.len() > 0 && s.last() == c {
        trim_end_char(s.drop_last(), c)
    } else {
        s
    }
}

/// Whether `a` and `b` hold the same text.
pub fn same_text(a: &str, b: &str) -> (r: bool)
    ensures
        r == (a@ == b@),
{
    let x = chars_of(a);
    let y = chars_of(b);
    if x.len() != y.len() {
        return false;
    }
    let mut i: usize = 0;
    while i < x.len()
        invariant
            x@ == a@,
            y@ == b@,
            x@.len() == y@.len(),
            i <= x@.len(),
            forall|k: int| 0 <= k < i ==> x@[k] == y@[k],
        decreases x.len() - i,
    {
        if x[i] != y[i] {
            assert(x@[i as int] != y@[i as int]);
            return false;
        }
        i = i + 1;
    }
    assert(x@ =~= y@);
    true
}

/// Whether `t` occurs in `s` at position `i`.
fn occurs_at(s: &Vec<char>, t: &Vec<char>, i: usize) -> (r: bool)
    requires
        i + t@.len() <= s@.len(),
    ensures
        r == (s@.subrange(i as int, i + t@.len()) == t@),
{
    let sl = s.len();
    let mut k: usize = 0;
    while k < t.len()
        invariant
            sl == s@.len(),
            i + t@.len() <= s@.len(),
            k <= t@.len(),
            forall|j: int| 0 <= j < k ==> s@[i + j] == t@[j],
        decreases t.len() - k,
    {
        if s[i + k] != t[k] {
            assert(s@.subrange(i as int, i + t@.len())[k as int] != t@[k as int]);
            return false;
        }
        k = k + 1;
    }
    assert(s@.subrange(i as int, i + t@.len()) =~= t@);
    true
}

/// Whether the characters `t` occur in the characters `s`.
pub fn contains_chars(s: &Vec<char>, t: &Vec<char>) -> (r: bool)
    ensures
        r == contains_seq(s@, t@),
{
    if t.len() > s.len() {
        return false;
    }
    let last = s.len() - t.len();
    let mut i: usize = 0;
    while i < last
        invariant
            last == s@.len() - t@.len(),
            i <= last,
            forall|j: int| 0 <= j < i ==> #[trigger] s@.subrange(j, j + t@.len()) != t@,
        decreases last - i,
    {
        if occurs_at(s, t, i) {
            return true;
        }
        i = i + 1;
    }
    occurs_at(s, t, last)
}

/// Whether the text `t` occurs in the text `s`.
pub fn contains_text(s: &str, t: &str) -> (r: bool)
    ensures
        r == contains_seq(s@, t@),
{
    let x = chars_of(s);
    let y = chars_of(t);
    contains_chars(&x, &y)
}

/// Whether the text `s` ends with the text `t`.
pub fn ends_with_text(s: &str, t: &str) -> (r: bool)
    ensures
        r == ends_with_seq(s@, t@),
{
    let x = chars_of(s);
    let y = chars_of(t);
    if y.len() > x.len() {
        return false;
    }
    occurs_at(&x, &y, x.len() - y.len())
}

/// Whether `s` is empty or only white space (`s.trim().is_empty()`).
pub fn is_blank(s: &str) -> (r: bool)
    ensures
        r == (trim(s@).len() == 0),
        r == all_ws(s@),
{
    let v = chars_of(s);
    let t = trim_chars(&v);
    proof {
        lemma_trim_empty_iff_all_ws(s@);
    }
    t.len() == 0
}

/// `s.trim()`, as an owned string.
pub fn trimmed(s: &str) -> (r: String)
    ensures
        r@ == trim(s@),
{
    let v = chars_of(s);
    let t = trim_chars(&v);
    string_of(&t)
}

/// `s` without its trailing `c` characters.
pub fn trim_end_matches_char(s: &str, c: char) -> (r: String)
    ensures
        r@ == trim_end_char(s@, c),
{
    let v = chars_of(s);
    let mut j: usize = v.len();
    assert(v@.take(v@.len() as int) =~= v@);
    while j > 0 && v[j - 1] == c
        invariant
            j <= v@.len(),
            trim_end_char(v@, c) == trim_end_char(v@.take(j as int), c),
        decreases j,
    {
        assert(v@.take(j as int).drop_last() =~= v@.take(j - 1));
        j = j - 1;
    }
    let mut r = String::new();
    let mut k: usize = 0;
    while k < j
        invariant
            j <= v@.len(),
            k <= j,
            r@ =~= v@.take(k as int),
        decreases j - k,
    {
        push_char(&mut r, v[k]);
        k = k + 1;
    }
    r
}

/// The decimal digits of `n`.
pub open spec fn decimal(n: nat) -> Seq<char>
    decreases n,
{
    if n < 10 {
        seq![digit_char(n)]
    } else {
        decimal(n / 10).push(digit_char(n % 10))
    }
}

/// The character of the decimal digit `d`.
pub open spec fn digit_char(d: nat) -> char {
    if d == 0 { '0' }
    else if d == 1 { '1' }
    else if d == 2 { '2' }
    else if d == 3 { '3' }
    else if d == 4 { '4' }
    else if d == 5 { '5' }
    else if d == 6 { '6' }
    else if d == 7 { '7' }
    else if d == 8 { '8' }
    else { '9' }
}

fn digit(d: usize) -> (c: char)
    requires
        d < 10,
    ensures
        c == digit_char(d as nat),
{
    if d == 0 { '0' }
    else if d == 1 { '1' }
    else if d == 2 { '2' }
    else if d == 3 { '3' }
    else if d == 4 { '4' }
    else if d == 5 { '5' }
    else if d == 6 { '6' }
    else if d == 7 { '7' }
    else if d == 8 { '8' }
    else { '9' }
}

/// Appends the decimal digits of `n` to `s` (as `format!("{}", n)` writes them).
pub fn push_decimal(s: &mut String, n: usize)
    ensures
        final(s)@ == old(s)@ + decimal(n as nat),
    decreases n,
{
    if n < 10 {
        push_char(s, digit(n));
        assert(decimal(n as nat) =~= seq![digit_char(n as nat)]);
    } else {
        push_decimal(s, n / 10);
        push_char(s, digit(n % 10));
    }
}

/// `std::str::to_lowercase`: the lowercase mapping of every character.
pub uninterp spec fn lowercase(s: Seq<char>) -> Seq<char>;

/// `str::to_lowercase` from std. Its result is named `lowercase` of the
/// argument's characters; the Unicode case tables behind it are not stated.
#[verifier::external_body]
pub(crate) fn to_lowercase(s: &str) -> (r: String)
    ensures
        r@ == lowercase(s@),
{
    s.to_lowercase()
}

} // verus!
