//! Character classes and the text operations the pipeline is built from,
//! stated over `Seq<char>` and implemented over `Vec<char>`.
use vstd::prelude::*;

verus! {

// ---------------------------------------------------------------------------
// Character classes
// ---------------------------------------------------------------------------

/// The Unicode `White_Space` property.
pub open spec fn is_ws(c: char) -> bool {
    let n = c as u32;
    ||| 0x09 <= n <= 0x0d
    ||| n == 0x20
    ||| n == 0x85
    ||| n == 0xa0
    ||| n == 0x1680
    ||| 0x2000 <= n <= 0x200a
    ||| n == 0x2028
    ||| n == 0x2029
    ||| n == 0x202f
    ||| n == 0x205f
    ||| n == 0x3000
}

pub open spec fn is_digit(c: char) -> bool {
    '0' <= c <= '9'
}

pub open spec fn is_upper(c: char) -> bool {
    'A' <= c <= 'Z'
}

pub open spec fn is_lower(c: char) -> bool {
    'a' <= c <= 'z'
}

pub open spec fn is_alpha(c: char) -> bool {
    is_upper(c) || is_lower(c)
}

pub open spec fn is_alnum(c: char) -> bool {
    is_alpha(c) || is_digit(c)
}

pub open spec fn is_hex(c: char) -> bool {
    is_digit(c) || ('a' <= c <= 'f') || ('A' <= c <= 'F')
}

/// ASCII lower-casing; every other character is left as it is.
pub open spec fn to_lower(c: char) -> char {
    if is_upper(c) {
        ((c as u32) + 32) as char
    } else {
        c
    }
}

pub(crate) fn is_whitespace(c: char) -> (b: bool)
    ensures
        b == is_ws(c),
{
    let n = c as u32;
    (0x09 <= n && n <= 0x0d) || n == 0x20 || n == 0x85 || n == 0xa0 || n == 0x1680 || (0x2000
        <= n && n <= 0x200a) || n == 0x2028 || n == 0x2029 || n == 0x202f || n == 0x205f || n
        == 0x3000
}

pub(crate) fn is_ascii_digit(c: char) -> (b: bool)
    ensures
        b == is_digit(c),
{
    '0' <= c && c <= '9'
}

pub(crate) fn is_ascii_alphabetic(c: char) -> (b: bool)
    ensures
        b == is_alpha(c),
{
    ('A' <= c && c <= 'Z') || ('a' <= c && c <= 'z')
}

pub(crate) fn is_ascii_alphanumeric(c: char) -> (b: bool)
    ensures
        b == is_alnum(c),
{
    is_ascii_alphabetic(c) || is_ascii_digit(c)
}

pub(crate) fn is_ascii_hexdigit(c: char) -> (b: bool)
    ensures
        b == is_hex(c),
{
    is_ascii_digit(c) || ('a' <= c && c <= 'f') || ('A' <= c && c <= 'F')
}

pub(crate) fn to_ascii_lowercase(c: char) -> (r: char)
    ensures
        r == to_lower(c),
{
    if 'A' <= c && c <= 'Z' {
        let n = (c as u32) + 32;
        assert(0x61 <= n <= 0x7a);
        n as u8 as char
    } else {
        c
    }
}

// ---------------------------------------------------------------------------
// Conversions between strings and character vectors
// ---------------------------------------------------------------------------

/// `String::push`: the string grows by exactly the pushed character.
#[verifier::external_body]
pub(crate) fn push_char(s: &mut String, c: char)
    ensures
        final(s)@ == old(s)@.push(c),
{
    s.push(c);
}

/// The characters of a string slice, in order.
pub(crate) fn chars_of(s: &str) -> (v: Vec<char>)
    ensures
        v@ == s@,
{
    let mut v: Vec<char> = Vec::new();
    for c in it: s.chars()
        invariant
            v@ == it.seq().take(it.index() as int),
    {
        v.push(c);
    }
    v
}

/// A string holding exactly the given characters.
pub(crate) fn string_of(v: &Vec<char>) -> (s: String)
    ensures
        s@ == v@,
{
    let mut s = String::new();
    for i in 0..v.len()
        invariant
            s@ == v@.take(i as int),
    {
        push_char(&mut s, v[i]);
        assert(v@.take(i + 1) == v@.take(i as int).push(v@[i as int]));
    }
    assert(v@.take(v.len() as int) == v@);
    s
}

/// A copy of `v[start..end]`.
pub(crate) fn copy_range(v: &Vec<char>, start: usize, end: usize) -> (r: Vec<char>)
    requires
        start <= end <= v.len(),
    ensures
        r@ == v@.subrange(start as int, end as int),
{
    let mut r: Vec<char> = Vec::new();
    let mut i = start;
    while i < end
        invariant
            start <= i <= end <= v.len(),
            r@ == v@.subrange(start as int, i as int),
        decreases end - i,
    {
        r.push(v[i]);
        i += 1;
        assert(r@ =~= v@.subrange(start as int, i as int));
    }
    r
}

/// Appends all of `src` to `dst`.
pub(crate) fn append_chars(dst: &mut Vec<char>, src: &Vec<char>)
    ensures
        final(dst)@ == old(dst)@ + src@,
{
    let ghost d0 = dst@;
    for i in 0..src.len()
        invariant
            dst@ == d0 + src@.take(i as int),
    {
        dst.push(src[i]);
        assert(src@.take(i + 1) == src@.take(i as int).push(src@[i as int]));
        assert(dst@ =~= d0 + src@.take(i + 1));
    }
    assert(src@.take(src.len() as int) == src@);
}

/// Appends `v[start..end]` to `dst`.
pub(crate) fn append_range(dst: &mut Vec<char>, v: &Vec<char>, start: usize, end: usize)
    requires
        start <= end <= v.len(),
    ensures
        final(dst)@ == old(dst)@ + v@.subrange(start as int, end as int),
{
    let ghost d0 = dst@;
    let mut i = start;
    while i < end
        invariant
            start <= i <= end <= v.len(),
            dst@ == d0 + v@.subrange(start as int, i as int),
        decreases end - i,
    {
        dst.push(v[i]);
        i += 1;
        assert(dst@ =~= d0 + v@.subrange(start as int, i as int));
    }
}

/// Whether two character vectors hold the same characters.
pub(crate) fn chars_equal(a: &Vec<char>, b: &Vec<char>) -> (r: bool)
    ensures
        r == (a@ == b@),
{
    if a.len() != b.len() {
        return false;
    }
    for i in 0..a.len()
        invariant
            a.len() == b.len(),
            forall|j: int| 0 <= j < i ==> a@[j] == b@[j],
    {
        if a[i] != b[i] {
            return false;
        }
    }
    assert(a@ =~= b@);
    true
}

// ---------------------------------------------------------------------------
// Trimming
// ---------------------------------------------------------------------------

pub open spec fn trim_start(s: Seq<char>) -> Seq<char>
    decreases s.len(),
{
    if s.len() > 0 && is_ws(s[0]) {
        trim_start(s.drop_first())
    } else {
        s
    }
}

pub open spec fn trim_end(s: Seq<char>) -> Seq<char>
    decreases s.len(),
{
    if s.len() > 0 && is_ws(s.last()) {
        trim_end(s.drop_last())
    } else {
        s
    }
}

/// `str::trim`: leading and trailing white space removed.
pub open spec fn trim(s: Seq<char>) -> Seq<char> {
    trim_end(trim_start(s))
}

/// The bounds `(start, end)` of the trimmed part of `v`.
pub(crate) fn trim_bounds(v: &Vec<char>) -> (r: (usize, usize))
    ensures
        r.0 <= r.1 <= v.len(),
        v@.subrange(r.0 as int, r.1 as int) == trim(v@),
{
    let n = v.len();
    let mut i: usize = 0;
    assert(v@.skip(0) =~= v@);
    while i < n && is_whitespace(v[i])
        invariant
            i <= n == v.len(),
            trim_start(v@) == trim_start(v@.skip(i as int)),
        decreases n - i,
    {
        assert(v@.skip(i as int).drop_first() =~= v@.skip(i + 1));
        i += 1;
    }
    assert(trim_start(v@) == v@.skip(i as int));
    let mut j: usize = n;
    assert(v@.subrange(i as int, n as int) =~= v@.skip(i as int));
    while j > i && is_whitespace(v[j - 1])
        invariant
            i <= j <= n == v.len(),
            trim(v@) == trim_end(v@.subrange(i as int, j as int)),
        decreases j - i,
    {
        assert(v@.subrange(i as int, j as int).drop_last() =~= v@.subrange(i as int, j - 1));
        j -= 1;
    }
    (i, j)
}

/// Whether the trimmed text is empty, that is, whether every character is white space.
pub(crate) fn is_blank(v: &Vec<char>) -> (b: bool)
    ensures
        b == (trim(v@).len() == 0),
{
    let (s, e) = trim_bounds(v);
    s == e
}

/// `str::trim` on a character vector.
pub(crate) fn trimmed(v: &Vec<char>) -> (r: Vec<char>)
    ensures
        r@ == trim(v@),
{
    let (s, e) = trim_bounds(v);
    copy_range(v, s, e)
}

proof fn lemma_trim_start_skips(s: Seq<char>)
    ensures
        trim_start(s).len() <= s.len(),
        trim_start(s) == s.skip(s.len() - trim_start(s).len()),
        trim_start(s).len() > 0 ==> !is_ws(trim_start(s)[0]),
    decreases s.len(),
{
    if s.len() > 0 && is_ws(s[0]) {
        lemma_trim_start_skips(s.drop_first());
        assert(s.drop_first().skip(s.drop_first().len() - trim_start(s).len()) =~= s.skip(
            s.len() - trim_start(s).len(),
        ));
    } else {
        assert(s.skip(0) =~= s);
    }
}

proof fn lemma_trim_end_takes(s: Seq<char>)
    ensures
        trim_end(s).len() <= s.len(),
        trim_end(s) == s.take(trim_end(s).len() as int),
        trim_end(s).len() > 0 ==> !is_ws(trim_end(s).last()),
    decreases s.len(),
{
    if s.len() > 0 && is_ws(s.last()) {
        lemma_trim_end_takes(s.drop_last());
        assert(s.drop_last().take(trim_end(s).len() as int) =~= s.take(trim_end(s).len() as int));
    } else {
        assert(s.take(s.len() as int) =~= s);
    }
}

/// Law: trimmed text neither starts nor ends with white space, so trimming it
/// again changes nothing.
pub proof fn lemma_trim_idempotent(s: Seq<char>)
    ensures
        trim(trim(s)) == trim(s),
        trim(s).len() > 0 ==> !is_ws(trim(s)[0]) && !is_ws(trim(s).last()),
{
    let a = trim_start(s);
    let u = trim(s);
    lemma_trim_start_skips(s);
    lemma_trim_end_takes(a);
    if u.len() > 0 {
        assert(u[0] == a[0]);
        assert(trim_start(u) == u);
        assert(trim_end(u) == u);
    } else {
        assert(trim_start(u) == u);
        assert(trim_end(u) == u);
    }
}

proof fn lemma_trim_end_blank(s: Seq<char>)
    requires
        trim_end(s).len() == 0,
    ensures
        forall|j: int| 0 <= j < s.len() ==> is_ws(#[trigger] s[j]),
    decreases s.len(),
{
    if s.len() > 0 && is_ws(s.last()) {
        let pre = s.drop_last();
        lemma_trim_end_blank(pre);
        assert forall|j: int| 0 <= j < s.len() implies is_ws(#[trigger] s[j]) by {
            if j < pre.len() {
                assert(s[j] == pre[j]);
            }
        }
    }
}

/// Text whose trimmed form is empty is white space throughout.
pub proof fn lemma_blank_is_ws(s: Seq<char>)
    requires
        trim(s).len() == 0,
    ensures
        forall|j: int| 0 <= j < s.len() ==> is_ws(#[trigger] s[j]),
    decreases s.len(),
{
    if s.len() > 0 && is_ws(s[0]) {
        let rest = s.drop_first();
        assert(trim_start(s) == trim_start(rest));
        lemma_blank_is_ws(rest);
        assert forall|j: int| 0 <= j < s.len() implies is_ws(#[trigger] s[j]) by {
            if j > 0 {
                assert(s[j] == rest[j - 1]);
            }
        }
    } else {
        lemma_trim_end_blank(s);
    }
}

// ---------------------------------------------------------------------------
// Line endings, lines, joining
// ---------------------------------------------------------------------------

/// `str::replace("\r\n", "\n")`: each CR LF pair, matched left to right, becomes LF.
pub open spec fn crlf_to_lf(s: Seq<char>) -> Seq<char>
    decreases s.len(),
{
    if s.len() == 0 {
        seq![]
    } else if s.len() >= 2 && s[0] == '\r' && s[1] == '\n' {
        seq!['\n'] + crlf_to_lf(s.skip(2))
    } else {
        seq![s[0]] + crlf_to_lf(s.skip(1))
    }
}

/// How many times `c` occurs in `s`.
pub open spec fn count_char(s: Seq<char>, c: char) -> nat
    decreases s.len(),
{
    if s.len() == 0 {
        0
    } else {
        (if s[0] == c {
            1nat
        } else {
            0nat
        }) + count_char(s.drop_first(), c)
    }
}

/// `s` with every occurrence of `c` removed.
pub open spec fn without_char(s: Seq<char>, c: char) -> Seq<char>
    decreases s.len(),
{
    if s.len() == 0 {
        seq![]
    } else {
        (if s[0] == c {
            seq![]
        } else {
            seq![s[0]]
        }) + without_char(s.drop_first(), c)
    }
}

/// How many CR LF pairs `s` holds.
pub open spec fn count_crlf(s: Seq<char>) -> nat
    decreases s.len(),
{
    if s.len() < 2 {
        0
    } else {
        (if s[0] == '\r' && s[1] == '\n' {
            1nat
        } else {
            0nat
        }) + count_crlf(s.drop_first())
    }
}

/// Law: turning CR LF pairs into LF keeps every character other than CR, in order
/// (so no line break is lost or added), and removes exactly one CR per CR LF pair of
/// the input.
pub proof fn lemma_crlf_to_lf_keeps_text(s: Seq<char>)
    ensures
        without_char(crlf_to_lf(s), '\r') == without_char(s, '\r'),
        count_char(crlf_to_lf(s), '\n') == count_char(s, '\n'),
        count_char(crlf_to_lf(s), '\r') + count_crlf(s) == count_char(s, '\r'),
    decreases s.len(),
{
    if s.len() == 0 {
    } else if s.len() >= 2 && s[0] == '\r' && s[1] == '\n' {
        let rest = s.skip(2);
        lemma_crlf_to_lf_keeps_text(rest);
        let t = s.drop_first();
        assert(t.drop_first() =~= rest);
        let r = crlf_to_lf(s);
        assert(r == seq!['\n'] + crlf_to_lf(rest));
        assert(r.drop_first() =~= crlf_to_lf(rest));
        assert(r[0] == '\n');
        assert(t[0] == '\n');
        assert(without_char(s, '\r') == without_char(t, '\r'));
        assert(without_char(t, '\r') == seq!['\n'] + without_char(rest, '\r'));
        assert(without_char(r, '\r') == seq!['\n'] + without_char(crlf_to_lf(rest), '\r'));
        assert(count_char(s, '\n') == count_char(t, '\n'));
        assert(count_char(t, '\n') == 1 + count_char(rest, '\n'));
        assert(count_char(r, '\n') == 1 + count_char(crlf_to_lf(rest), '\n'));
        assert(count_char(s, '\r') == 1 + count_char(t, '\r'));
        assert(count_char(t, '\r') == count_char(rest, '\r'));
        assert(count_char(r, '\r') == count_char(crlf_to_lf(rest), '\r'));
        assert(count_crlf(t) == count_crlf(rest));
    } else {
        let rest = s.skip(1);
        lemma_crlf_to_lf_keeps_text(rest);
        assert(s.drop_first() =~= rest);
        let r = crlf_to_lf(s);
        assert(r == seq![s[0]] + crlf_to_lf(rest));
        assert(r.drop_first() =~= crlf_to_lf(rest));
        assert(r[0] == s[0]);
        assert(count_crlf(s) == count_crlf(rest));
    }
}



pub(crate) fn replace_crlf(v: &Vec<char>) -> (r: Vec<char>)
    ensures
        r@ == crlf_to_lf(v@),
{
    let mut out: Vec<char> = Vec::new();
    let mut i: usize = 0;
    assert(v@.skip(0) =~= v@);
    while i < v.len()
        invariant
            i <= v.len(),
            crlf_to_lf(v@) == out@ + crlf_to_lf(v@.skip(i as int)),
        decreases v.len() - i,
    {
        let ghost rest = v@.skip(i as int);
        if i + 1 < v.len() && v[i] == '\r' && v[i + 1] == '\n' {
            out.push('\n');
            assert(rest.skip(2) =~= v@.skip(i + 2));
            i += 2;
        } else {
            out.push(v[i]);
            assert(rest.skip(1) =~= v@.skip(i + 1));
            i += 1;
        }
    }
    assert(v@.skip(i as int) =~= seq![]);
    assert(out@ + seq![] =~= out@);
    out
}

/// The pieces of `s` between occurrences of `sep` (`str::split` on one character);
/// there is always one more piece than there are separators.
pub open spec fn split_on(s: Seq<char>, sep: char) -> Seq<Seq<char>>
    decreases s.len(),
{
    if s.len() == 0 {
        seq![seq![]]
    } else {
        let r = split_on(s.drop_last(), sep);
        if s.last() == sep {
            r.push(seq![])
        } else {
            r.update(r.len() - 1, r.last().push(s.last()))
        }
    }
}

pub proof fn lemma_split_on_nonempty(s: Seq<char>, sep: char)
    ensures
        split_on(s, sep).len() >= 1,
    decreases s.len(),
{
    if s.len() > 0 {
        lemma_split_on_nonempty(s.drop_last(), sep);
    }
}

pub open spec fn views(v: Seq<Vec<char>>) -> Seq<Seq<char>> {
    v.map_values(|p: Vec<char>| p@)
}

pub(crate) fn split_chars(v: &Vec<char>, sep: char) -> (parts: Vec<Vec<char>>)
    ensures
        views(parts@) == split_on(v@, sep),
{
    let mut parts: Vec<Vec<char>> = Vec::new();
    parts.push(Vec::new());
    assert(views(parts@) =~= split_on(v@.take(0), sep));
    for i in 0..v.len()
        invariant
            views(parts@) == split_on(v@.take(i as int), sep),
    {
        let ghost pre = v@.take(i as int);
        assert(v@.take(i + 1).drop_last() =~= pre);
        proof {
            lemma_split_on_nonempty(pre, sep);
        }
        let c = v[i];
        if c == sep {
            parts.push(Vec::new());
            assert(views(parts@) =~= split_on(v@.take(i + 1), sep));
        } else {
            let mut last = parts.pop().unwrap();
            last.push(c);
            parts.push(last);
            assert(views(parts@) =~= split_on(v@.take(i + 1), sep));
        }
    }
    assert(v@.take(v.len() as int) =~= v@);
    parts
}

/// A line without the carriage return that ended it.
pub open spec fn strip_cr(l: Seq<char>) -> Seq<char> {
    if l.len() > 0 && l.last() == '\r' {
        l.drop_last()
    } else {
        l
    }
}

/// `str::lines`: the text split at LF; a CR just before an LF is dropped, the final
/// LF ends the last line without opening another one, and empty text has no lines.
pub open spec fn lines(s: Seq<char>) -> Seq<Seq<char>> {
    if s.len() == 0 {
        seq![]
    } else {
        let p = split_on(s, '\n');
        let body = if s.last() == '\n' {
            p.drop_last()
        } else {
            p
        };
        Seq::new(
            body.len(),
            |i: int|
                if i < p.len() - 1 {
                    strip_cr(body[i])
                } else {
                    body[i]
                },
        )
    }
}

pub proof fn lemma_split_on_last_empty(s: Seq<char>, sep: char)
    requires
        s.len() > 0,
        s.last() == sep,
    ensures
        split_on(s, sep).last() == Seq::<char>::empty(),
        split_on(s, sep).len() >= 2,
{
    lemma_split_on_nonempty(s.drop_last(), sep);
}

pub(crate) fn split_lines(v: &Vec<char>) -> (ls: Vec<Vec<char>>)
    ensures
        views(ls@) == lines(v@),
{
    if v.len() == 0 {
        let ls: Vec<Vec<char>> = Vec::new();
        assert(views(ls@) =~= lines(v@));
        return ls;
    }
    let mut parts = split_chars(v, '\n');
    proof {
        lemma_split_on_nonempty(v@, '\n');
    }
    let np = parts.len();
    let ghost p = split_on(v@, '\n');
    if v[v.len() - 1] == '\n' {
        proof {
            lemma_split_on_last_empty(v@, '\n');
        }
        parts.pop();
    }
    let ghost body = views(parts@);
    assert(body == if v@.last() == '\n' { p.drop_last() } else { p });
    let mut ls: Vec<Vec<char>> = Vec::new();
    for i in 0..parts.len()
        invariant
            np == p.len(),
            body == views(parts@),
            i <= parts.len(),
            views(ls@) == Seq::new(
                i as nat,
                |k: int|
                    if k < p.len() - 1 {
                        strip_cr(body[k])
                    } else {
                        body[k]
                    },
            ),
    {
        let mut line = copy_range(&parts[i], 0, parts[i].len());
        assert(line@ =~= parts@[i as int]@);
        let ghost expected = if i < p.len() - 1 {
            strip_cr(body[i as int])
        } else {
            body[i as int]
        };
        if i + 1 < np && line.len() > 0 && line[line.len() - 1] == '\r' {
            line.pop();
            assert(line@ =~= body[i as int].drop_last());
        }
        assert(line@ == expected);
        let ghost prev = views(ls@);
        ls.push(line);
        assert(views(ls@) =~= prev.push(expected));
        assert(views(ls@) =~= Seq::new(
            (i + 1) as nat,
            |k: int|
                if k < p.len() - 1 {
                    strip_cr(body[k])
                } else {
                    body[k]
                },
        ));
    }
    assert(views(ls@) =~= lines(v@));
    ls
}

proof fn lemma_split_on_no_sep(x: Seq<char>, sep: char)
    requires
        forall|i: int| 0 <= i < x.len() ==> x[i] != sep,
    ensures
        split_on(x, sep) == seq![x],
    decreases x.len(),
{
    if x.len() > 0 {
        lemma_split_on_no_sep(x.drop_last(), sep);
        assert(x.drop_last().push(x.last()) =~= x);
        assert(split_on(x, sep) =~= seq![x]);
    } else {
        assert(x =~= Seq::<char>::empty());
    }
}

/// The first piece of a text split at `sep` is everything before the first `sep`.
proof fn lemma_split_on_first(t: Seq<char>, sep: char, k: int)
    requires
        0 <= k < t.len(),
        t[k] == sep,
        forall|i: int| 0 <= i < k ==> t[i] != sep,
    ensures
        split_on(t, sep).len() >= 2,
        split_on(t, sep)[0] == t.take(k),
    decreases t.len(),
{
    if t.len() == k + 1 {
        assert(t.drop_last() =~= t.take(k));
        lemma_split_on_no_sep(t.take(k), sep);
    } else {
        lemma_split_on_first(t.drop_last(), sep, k);
        assert(t.drop_last().take(k) =~= t.take(k));
    }
}

/// Law: when the text opens with a line ended by LF, that line (without a CR just
/// before the LF) is the first of its lines.
pub proof fn lemma_first_line(first: Seq<char>, rest: Seq<char>)
    requires
        forall|i: int| 0 <= i < first.len() ==> first[i] != '\n',
    ensures
        lines(first + seq!['\n'] + rest).len() >= 1,
        lines(first + seq!['\n'] + rest)[0] == strip_cr(first),
{
    let t = first + seq!['\n'] + rest;
    let k = first.len() as int;
    assert(t[k] == '\n');
    assert forall|i: int| 0 <= i < k implies t[i] != '\n' by {
        assert(t[i] == first[i]);
    }
    lemma_split_on_first(t, '\n', k);
    assert(t.take(k) =~= first);
}

/// Law: text that is not empty has at least one line.
pub proof fn lemma_lines_nonempty(s: Seq<char>)
    requires
        s.len() > 0,
    ensures
        lines(s).len() >= 1,
{
    lemma_split_on_nonempty(s, '\n');
    if s.last() == '\n' {
        lemma_split_on_last_empty(s, '\n');
    }
}

/// `join("\n")`.
pub open spec fn join_lines(ls: Seq<Seq<char>>) -> Seq<char>
    decreases ls.len(),
{
    if ls.len() == 0 {
        seq![]
    } else if ls.len() == 1 {
        ls[0]
    } else {
        join_lines(ls.drop_last()) + seq!['\n'] + ls.last()
    }
}

pub(crate) fn join_with_newlines(ls: &Vec<Vec<char>>) -> (r: Vec<char>)
    ensures
        r@ == join_lines(views(ls@)),
{
    let mut r: Vec<char> = Vec::new();
    for i in 0..ls.len()
        invariant
            r@ == join_lines(views(ls@).take(i as int)),
    {
        let ghost pre = views(ls@).take(i as int);
        assert(views(ls@).take(i + 1).drop_last() =~= pre);
        if i > 0 {
            r.push('\n');
        }
        append_chars(&mut r, &ls[i]);
        assert(r@ =~= join_lines(views(ls@).take(i + 1)));
    }
    assert(views(ls@).take(ls.len() as int) =~= views(ls@));
    r
}

// ---------------------------------------------------------------------------
// Substring search
// ---------------------------------------------------------------------------

pub open spec fn matches_at(s: Seq<char>, pat: Seq<char>, i: int) -> bool {
    0 <= i && i + pat.len() <= s.len() && s.subrange(i, i + pat.len()) == pat
}

/// `s[from..].find(pat)`, as an index into `s`: the first position at or after
/// `from` where `pat` occurs.
pub open spec fn find_from(s: Seq<char>, pat: Seq<char>, from: int) -> Option<int>
    decreases s.len() + 1 - from,
{
    if from < 0 || from + pat.len() > s.len() {
        None
    } else if matches_at(s, pat, from) {
        Some(from)
    } else {
        find_from(s, pat, from + 1)
    }
}

pub proof fn lemma_find_from_bounds(s: Seq<char>, pat: Seq<char>, from: int)
    ensures
        find_from(s, pat, from) matches Some(m) ==> from <= m && m + pat.len() <= s.len()
            && matches_at(s, pat, m),
    decreases s.len() + 1 - from,
{
    if !(from < 0 || from + pat.len() > s.len()) && !matches_at(s, pat, from) {
        lemma_find_from_bounds(s, pat, from + 1);
    }
}

/// The first match at or after `from` is the one `find_from` reports.
pub proof fn lemma_find_from_first(s: Seq<char>, pat: Seq<char>, from: int, k: int)
    requires
        0 <= from <= k,
        matches_at(s, pat, k),
        forall|j: int| from <= j < k ==> !#[trigger] matches_at(s, pat, j),
    ensures
        find_from(s, pat, from) == Some(k),
    decreases k - from,
{
    if from < k {
        assert(!matches_at(s, pat, from));
        lemma_find_from_first(s, pat, from + 1, k);
    }
}

/// A match stays a match when text is added after it, or before it (shifted).
pub proof fn lemma_matches_at_extend(a: Seq<char>, x: Seq<char>, b: Seq<char>, pat: Seq<char>, p: int)
    requires
        matches_at(x, pat, p),
    ensures
        matches_at(a + x + b, pat, a.len() + p),
{
    assert((a + x + b).subrange(a.len() + p, a.len() + p + pat.len()) =~= x.subrange(
        p,
        p + pat.len(),
    ));
}

/// Whether `pat` occurs anywhere in `s` (`str::contains`).
pub open spec fn occurs_in(s: Seq<char>, pat: Seq<char>) -> bool {
    exists|i: int| #[trigger] matches_at(s, pat, i)
}

proof fn lemma_find_from_none(s: Seq<char>, pat: Seq<char>, from: int)
    requires
        0 <= from,
        find_from(s, pat, from) is None,
    ensures
        forall|i: int| from <= i ==> !#[trigger] matches_at(s, pat, i),
    decreases s.len() + 1 - from,
{
    if from + pat.len() <= s.len() {
        lemma_find_from_none(s, pat, from + 1);
    }
}

pub(crate) fn contains_chars(s: &Vec<char>, pat: &Vec<char>) -> (b: bool)
    ensures
        b == occurs_in(s@, pat@),
{
    match find_chars_from(s, pat, 0) {
        Some(m) => {
            proof {
                lemma_find_from_bounds(s@, pat@, 0);
                assert(matches_at(s@, pat@, m as int));
            }
            true
        },
        None => {
            proof {
                lemma_find_from_none(s@, pat@, 0);
            }
            false
        },
    }
}

pub open spec fn starts_with(s: Seq<char>, pat: Seq<char>) -> bool {
    pat.len() <= s.len() && s.take(pat.len() as int) == pat
}

/// Whether `pat` occurs in `s` at position `i`.
pub(crate) fn matches_here(s: &Vec<char>, pat: &Vec<char>, i: usize) -> (r: bool)
    ensures
        r == matches_at(s@, pat@, i as int),
{
    if i > s.len() || pat.len() > s.len() - i {
        return false;
    }
    for k in 0..pat.len()
        invariant
            i + pat.len() <= s.len(),
            forall|j: int| 0 <= j < k ==> s@[i + j] == pat@[j],
    {
        if s[i + k] != pat[k] {
            assert(s@.subrange(i as int, i + pat.len())[k as int] != pat@[k as int]);
            return false;
        }
    }
    assert(s@.subrange(i as int, i + pat.len()) =~= pat@);
    true
}

pub(crate) fn starts_with_chars(s: &Vec<char>, pat: &Vec<char>) -> (r: bool)
    ensures
        r == starts_with(s@, pat@),
{
    let r = matches_here(s, pat, 0);
    assert(s@.subrange(0, pat@.len() as int) =~= s@.take(pat@.len() as int));
    r
}

pub(crate) fn find_chars_from(s: &Vec<char>, pat: &Vec<char>, from: usize) -> (r: Option<usize>)
    ensures
        r matches Some(m) ==> find_from(s@, pat@, from as int) == Some(m as int),
        r is None ==> find_from(s@, pat@, from as int) is None,
{
    let mut i = from;
    while i <= s.len() && pat.len() <= s.len() - i
        invariant
            from <= i,
            find_from(s@, pat@, from as int) == find_from(s@, pat@, i as int),
        decreases s.len() + 1 - i,
    {
        if matches_here(s, pat, i) {
            return Some(i);
        }
        if i == s.len() {
            assert(find_from(s@, pat@, i as int + 1) is None);
            return None;
        }
        i += 1;
    }
    None
}

// ---------------------------------------------------------------------------
// Decimal numerals
// ---------------------------------------------------------------------------

pub open spec fn digit_char(d: nat) -> char {
    if d == 0 {
        '0'
    } else if d == 1 {
        '1'
    } else if d == 2 {
        '2'
    } else if d == 3 {
        '3'
    } else if d == 4 {
        '4'
    } else if d == 5 {
        '5'
    } else if d == 6 {
        '6'
    } else if d == 7 {
        '7'
    } else if d == 8 {
        '8'
    } else {
        '9'
    }
}

/// The decimal numeral of `n`, without leading zeros (`n.to_string()`).
pub open spec fn decimal(n: nat) -> Seq<char>
    decreases n,
{
    if n < 10 {
        seq![digit_char(n)]
    } else {
        decimal(n / 10).push(digit_char(n % 10))
    }
}

/// The numeral of `n` padded with zeros to at least two digits (`format!("{n:02}")`).
pub open spec fn decimal2(n: nat) -> Seq<char> {
    if n < 10 {
        seq!['0', digit_char(n)]
    } else {
        decimal(n)
    }
}

fn digit_of(d: u128) -> (c: char)
    requires
        d < 10,
    ensures
        c == digit_char(d as nat),
{
    if d == 0 {
        '0'
    } else if d == 1 {
        '1'
    } else if d == 2 {
        '2'
    } else if d == 3 {
        '3'
    } else if d == 4 {
        '4'
    } else if d == 5 {
        '5'
    } else if d == 6 {
        '6'
    } else if d == 7 {
        '7'
    } else if d == 8 {
        '8'
    } else {
        '9'
    }
}

pub(crate) fn push_decimal(out: &mut Vec<char>, n: u128)
    ensures
        final(out)@ == old(out)@ + decimal(n as nat),
    decreases n,
{
    if n >= 10 {
        push_decimal(out, n / 10);
    }
    out.push(digit_of(n % 10));
    assert(final(out)@ =~= old(out)@ + decimal(n as nat));
}

pub(crate) fn push_decimal2(out: &mut Vec<char>, n: u128)
    ensures
        final(out)@ == old(out)@ + decimal2(n as nat),
{
    if n < 10 {
        out.push('0');
        out.push(digit_of(n));
        assert(final(out)@ =~= old(out)@ + decimal2(n as nat));
    } else {
        push_decimal(out, n);
    }
}

} // verus!
