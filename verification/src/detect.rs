//! Tokens, the punctuation that wraps them, and the detectors that decide
//! which tokens hold sensitive values.
use vstd::prelude::*;

use crate::text;

verus! {

// ---------------------------------------------------------------------------
// Tokens
// ---------------------------------------------------------------------------

/// The end of the run of non-white-space characters that starts at `i`.
pub open spec fn token_end(s: Seq<char>, i: int) -> int
    decreases s.len() - i,
{
    if i < 0 || i >= s.len() || text::is_ws(s[i]) {
        i
    } else {
        token_end(s, i + 1)
    }
}

/// The first position at or after `i` that does not hold white space.
pub open spec fn skip_ws(s: Seq<char>, i: int) -> int
    decreases s.len() - i,
{
    if i < 0 || i >= s.len() || !text::is_ws(s[i]) {
        i
    } else {
        skip_ws(s, i + 1)
    }
}

pub proof fn lemma_token_end(s: Seq<char>, i: int)
    requires
        0 <= i <= s.len(),
    ensures
        i <= token_end(s, i) <= s.len(),
        i < s.len() && !text::is_ws(s[i]) ==> token_end(s, i) > i,
    decreases s.len() - i,
{
    if i < s.len() && !text::is_ws(s[i]) {
        lemma_token_end(s, i + 1);
    }
}

pub proof fn lemma_skip_ws(s: Seq<char>, i: int)
    requires
        0 <= i <= s.len(),
    ensures
        i <= skip_ws(s, i) <= s.len(),
    decreases s.len() - i,
{
    if i < s.len() && text::is_ws(s[i]) {
        lemma_skip_ws(s, i + 1);
    }
}

pub(crate) fn scan_token_end(line: &Vec<char>, start: usize) -> (end: usize)
    requires
        start <= line.len(),
    ensures
        end == token_end(line@, start as int),
        start <= end <= line.len(),
{
    let mut end = start;
    while end < line.len() && !text::is_whitespace(line[end])
        invariant
            start <= end <= line.len(),
            token_end(line@, start as int) == token_end(line@, end as int),
        decreases line.len() - end,
    {
        end += 1;
    }
    end
}

pub(crate) fn skip_spaces(line: &Vec<char>, start: usize) -> (index: usize)
    requires
        start <= line.len(),
    ensures
        index == skip_ws(line@, start as int),
        start <= index <= line.len(),
{
    let mut index = start;
    while index < line.len() && text::is_whitespace(line[index])
        invariant
            start <= index <= line.len(),
            skip_ws(line@, start as int) == skip_ws(line@, index as int),
        decreases line.len() - index,
    {
        index += 1;
    }
    index
}

// ---------------------------------------------------------------------------
// Wrapping punctuation
// ---------------------------------------------------------------------------

/// Characters that may open a token around its core: `( [ { " '`.
pub open spec fn is_open_affix(c: char) -> bool {
    c == '(' || c == '[' || c == '{' || c == '"' || c == '\''
}

/// Characters that may close a token after its core: `. , ; ) : ] } " '`.
pub open spec fn is_close_affix(c: char) -> bool {
    c == '.' || c == ',' || c == ';' || c == ')' || c == ':' || c == ']' || c == '}' || c == '"'
        || c == '\''
}

/// The number of opening characters at the start of `t`.
pub open spec fn lead_len(t: Seq<char>) -> nat
    decreases t.len(),
{
    if t.len() > 0 && is_open_affix(t[0]) {
        1 + lead_len(t.drop_first())
    } else {
        0
    }
}

/// The number of closing characters at the end of `t`.
pub open spec fn trail_len(t: Seq<char>) -> nat
    decreases t.len(),
{
    if t.len() > 0 && is_close_affix(t.last()) {
        1 + trail_len(t.drop_last())
    } else {
        0
    }
}

pub proof fn lemma_lead_len(t: Seq<char>)
    ensures
        lead_len(t) <= t.len(),
    decreases t.len(),
{
    if t.len() > 0 && is_open_affix(t[0]) {
        lemma_lead_len(t.drop_first());
    }
}

pub proof fn lemma_trail_len(t: Seq<char>)
    ensures
        trail_len(t) <= t.len(),
    decreases t.len(),
{
    if t.len() > 0 && is_close_affix(t.last()) {
        lemma_trail_len(t.drop_last());
    }
}

/// Where the core of token `t` starts: after its opening characters.
pub open spec fn core_start(t: Seq<char>) -> int {
    lead_len(t) as int
}

/// Where the core of token `t` ends: before the closing characters that follow its
/// opening ones.
pub open spec fn core_end(t: Seq<char>) -> int {
    t.len() - trail_len(t.skip(core_start(t)))
}

/// The token without its wrapping punctuation.
pub open spec fn token_core(t: Seq<char>) -> Seq<char> {
    t.subrange(core_start(t), core_end(t))
}

pub proof fn lemma_core_bounds(t: Seq<char>)
    ensures
        0 <= core_start(t) <= core_end(t) <= t.len(),
{
    lemma_lead_len(t);
    lemma_trail_len(t.skip(core_start(t)));
}

/// The bounds `(prefix_len, core_end)` that split a token into its opening
/// characters, its core and its closing characters.
pub(crate) fn split_token_affixes(token: &Vec<char>) -> (r: (usize, usize))
    ensures
        r.0 == core_start(token@),
        r.1 == core_end(token@),
        r.0 <= r.1 <= token.len(),
{
    proof {
        lemma_core_bounds(token@);
    }
    let n = token.len();
    let mut p: usize = 0;
    assert(token@.skip(0) =~= token@);
    while p < n && (token[p] == '(' || token[p] == '[' || token[p] == '{' || token[p] == '"'
        || token[p] == '\'')
        invariant
            p <= n == token.len(),
            lead_len(token@) == p + lead_len(token@.skip(p as int)),
        decreases n - p,
    {
        assert(token@.skip(p as int).drop_first() =~= token@.skip(p + 1));
        p += 1;
    }
    assert(lead_len(token@.skip(p as int)) == 0);
    let mut e: usize = n;
    assert(token@.skip(p as int) =~= token@.subrange(p as int, n as int));
    while e > p && (token[e - 1] == '.' || token[e - 1] == ',' || token[e - 1] == ';' || token[e
        - 1] == ')' || token[e - 1] == ':' || token[e - 1] == ']' || token[e - 1] == '}' || token[e
        - 1] == '"' || token[e - 1] == '\'')
        invariant
            p <= e <= n == token.len(),
            p == lead_len(token@),
            trail_len(token@.skip(p as int)) == (n - e) + trail_len(
                token@.subrange(p as int, e as int),
            ),
        decreases e - p,
    {
        assert(token@.subrange(p as int, e as int).drop_last() =~= token@.subrange(
            p as int,
            e - 1,
        ));
        e -= 1;
    }
    (p, e)
}

// ---------------------------------------------------------------------------
// Detectors
// ---------------------------------------------------------------------------

/// Resource identifiers start with `/subscriptions/`.
pub open spec fn looks_like_resource_id(c: Seq<char>) -> bool {
    text::starts_with(c, "/subscriptions/"@)
}

/// An `http://` or `https://` URL with a `.` somewhere after the scheme.
pub open spec fn looks_like_url(c: Seq<char>) -> bool {
    ||| text::starts_with(c, "https://"@) && c.skip("https://"@.len() as int).contains('.')
    ||| text::starts_with(c, "http://"@) && c.skip("http://"@.len() as int).contains('.')
}

/// A non-empty part before the first `@`, and after it a part that holds a `.` and
/// neither starts nor ends with one.
pub open spec fn looks_like_email(c: Seq<char>) -> bool {
    match text::find_from(c, seq!['@'], 0) {
        None => false,
        Some(k) => {
            let domain = c.skip(k + 1);
            &&& k > 0
            &&& domain.contains('.')
            &&& domain[0] != '.'
            &&& domain.last() != '.'
        },
    }
}

/// Law: `https://` or `http://` followed by anything is a URL exactly when what
/// follows the scheme holds a `.`.
pub proof fn lemma_url_shape(rest: Seq<char>)
    ensures
        looks_like_url("https://"@ + rest) <==> rest.contains('.'),
        looks_like_url("http://"@ + rest) <==> rest.contains('.'),
{
    reveal_strlit("https://");
    reveal_strlit("http://");
    let a = "https://"@ + rest;
    let b = "http://"@ + rest;
    assert(a.take(8) =~= "https://"@);
    assert(a.skip(8) =~= rest);
    assert(a[4] == 's');
    if text::starts_with(a, "http://"@) {
        assert(a.take(7)[4] == "http://"@[4]);
    }
    assert(b.take(7) =~= "http://"@);
    assert(b.skip(7) =~= rest);
    if text::starts_with(b, "https://"@) {
        assert(b.take(8)[4] == "https://"@[4]);
    }
}

/// Law: a text made of a non-empty part without `@`, then `@`, then a part that holds
/// a `.` but neither starts nor ends with one, is an e-mail address, whatever else
/// either part holds (dots, `+`, other `@`, ...); and every e-mail address has that
/// shape.
pub proof fn lemma_email_shape(local: Seq<char>, domain: Seq<char>)
    requires
        local.len() > 0,
        !local.contains('@'),
    ensures
        looks_like_email(local + seq!['@'] + domain) <==> {
            &&& domain.contains('.')
            &&& domain[0] != '.'
            &&& domain.last() != '.'
        },
{
    let c = local + seq!['@'] + domain;
    let k = local.len() as int;
    assert(c.subrange(k, k + 1) =~= seq!['@']);
    assert forall|j: int| 0 <= j < k implies !#[trigger] text::matches_at(c, seq!['@'], j) by {
        if text::matches_at(c, seq!['@'], j) {
            assert(c.subrange(j, j + 1)[0] == c[j]);
            assert(local[j] == '@');
        }
    }
    text::lemma_find_from_first(c, seq!['@'], 0, k);
    assert(c.skip(k + 1) =~= domain);
}

/// Law: a text with no `@` is never an e-mail address.
pub proof fn lemma_email_needs_at(c: Seq<char>)
    requires
        !c.contains('@'),
    ensures
        !looks_like_email(c),
{
    text::lemma_find_from_bounds(c, seq!['@'], 0);
    if let Some(k) = text::find_from(c, seq!['@'], 0) {
        assert(c.subrange(k, k + 1)[0] == c[k]);
    }
}

pub open spec fn is_host_char(c: char) -> bool {
    text::is_alnum(c) || c == '-' || c == '.' || c == '_'
}

/// Non-empty, only ASCII letters, digits, `-`, `.` and `_`, and at least one `-` or `.`.
pub open spec fn looks_like_hostname(c: Seq<char>) -> bool {
    &&& c.len() > 0
    &&& forall|i: int| 0 <= i < c.len() ==> is_host_char(#[trigger] c[i])
    &&& exists|i: int| 0 <= i < c.len() && (#[trigger] c[i] == '-' || c[i] == '.')
}

/// Non-empty, only ASCII letters, digits, `-`, `_` and `.`, and at least one letter.
pub open spec fn looks_like_username(c: Seq<char>) -> bool {
    &&& c.len() > 0
    &&& forall|i: int| 0 <= i < c.len() ==> is_host_char(#[trigger] c[i])
    &&& exists|i: int| 0 <= i < c.len() && text::is_alpha(#[trigger] c[i])
}

/// The value of a run of decimal digits.
pub open spec fn digits_value(p: Seq<char>) -> nat
    decreases p.len(),
{
    if p.len() == 0 {
        0
    } else {
        digits_value(p.drop_last()) * 10 + ((p.last() as u32) - ('0' as u32)) as nat
    }
}

/// One to three decimal digits whose value fits in a byte.
pub open spec fn is_octet(p: Seq<char>) -> bool {
    &&& 1 <= p.len() <= 3
    &&& forall|i: int| 0 <= i < p.len() ==> text::is_digit(#[trigger] p[i])
    &&& digits_value(p) <= 255
}

/// Four octets separated by `.`.
pub open spec fn looks_like_ipv4(c: Seq<char>) -> bool {
    let parts = text::split_on(c, '.');
    &&& parts.len() == 4
    &&& forall|i: int| 0 <= i < 4 ==> is_octet(#[trigger] parts[i])
}

pub open spec fn uuid_group_len(i: int) -> int {
    if i == 0 {
        8
    } else if i == 4 {
        12
    } else {
        4
    }
}

pub open spec fn all_hex(p: Seq<char>) -> bool {
    forall|i: int| 0 <= i < p.len() ==> text::is_hex(#[trigger] p[i])
}

/// Five groups of hexadecimal digits, of lengths 8, 4, 4, 4 and 12, separated by `-`.
pub open spec fn looks_like_uuid(c: Seq<char>) -> bool {
    let parts = text::split_on(c, '-');
    &&& parts.len() == 5
    &&& forall|i: int|
        0 <= i < 5 ==> (#[trigger] parts[i]).len() == uuid_group_len(i) && all_hex(parts[i])
}

/// A token core that the final safety check refuses to let through.
pub open spec fn detectable(c: Seq<char>) -> bool {
    ||| looks_like_resource_id(c)
    ||| looks_like_url(c)
    ||| looks_like_email(c)
    ||| looks_like_ipv4(c)
    ||| looks_like_uuid(c)
    ||| looks_like_hostname(c)
}

/// Whether some white-space separated token from position `i` on has a detectable core.
pub open spec fn any_detectable_from(s: Seq<char>, i: int) -> bool
    decreases s.len() - i,
{
    if i < 0 || i >= s.len() {
        false
    } else if text::is_ws(s[i]) {
        any_detectable_from(s, i + 1)
    } else {
        let end = token_end(s, i);
        proof {
            lemma_token_end(s, i);
        }
        detectable(token_core(s.subrange(i, end))) || any_detectable_from(s, end)
    }
}

/// Whether any white-space separated token of the text has a detectable core.
pub open spec fn has_detectable_content(s: Seq<char>) -> bool {
    any_detectable_from(s, 0)
}

// ---------------------------------------------------------------------------
// Executable detectors
// ---------------------------------------------------------------------------

pub(crate) fn looks_like_resource(candidate: &Vec<char>) -> (b: bool)
    ensures
        b == looks_like_resource_id(candidate@),
{
    let pat = text::chars_of("/subscriptions/");
    text::starts_with_chars(candidate, &pat)
}

fn contains_char_from(v: &Vec<char>, from: usize, c: char) -> (b: bool)
    requires
        from <= v.len(),
    ensures
        b == v@.skip(from as int).contains(c),
{
    let mut i = from;
    while i < v.len()
        invariant
            from <= i <= v.len(),
            forall|j: int| from <= j < i ==> v@[j] != c,
        decreases v.len() - i,
    {
        if v[i] == c {
            assert(v@.skip(from as int)[i - from] == c);
            return true;
        }
        i += 1;
    }
    assert forall|j: int| 0 <= j < v@.skip(from as int).len() implies v@.skip(from as int)[j]
        != c by {
        assert(v@.skip(from as int)[j] == v@[from + j]);
    }
    false
}

pub(crate) fn looks_like_url_exec(candidate: &Vec<char>) -> (b: bool)
    ensures
        b == looks_like_url(candidate@),
{
    let https = text::chars_of("https://");
    let http = text::chars_of("http://");
    if text::starts_with_chars(candidate, &https) {
        if contains_char_from(candidate, https.len(), '.') {
            return true;
        }
    }
    if text::starts_with_chars(candidate, &http) {
        return contains_char_from(candidate, http.len(), '.');
    }
    false
}

pub(crate) fn looks_like_email_exec(candidate: &Vec<char>) -> (b: bool)
    ensures
        b == looks_like_email(candidate@),
{
    let mut at: Vec<char> = Vec::new();
    at.push('@');
    assert(at@ =~= seq!['@']);
    match text::find_chars_from(candidate, &at, 0) {
        None => false,
        Some(k) => {
            proof {
                text::lemma_find_from_bounds(candidate@, at@, 0);
            }
            let ghost domain = candidate@.skip(k + 1);
            let n = candidate.len();
            if k == 0 || !contains_char_from(candidate, k + 1, '.') {
                return false;
            }
            assert(domain[0] == candidate@[k + 1]);
            assert(domain.last() == candidate@[n - 1]);
            candidate[k + 1] != '.' && candidate[n - 1] != '.'
        },
    }
}

fn is_host_char_exec(c: char) -> (b: bool)
    ensures
        b == is_host_char(c),
{
    text::is_ascii_alphanumeric(c) || c == '-' || c == '.' || c == '_'
}

pub(crate) fn looks_like_hostname_exec(candidate: &Vec<char>) -> (b: bool)
    ensures
        b == looks_like_hostname(candidate@),
{
    if candidate.len() == 0 {
        return false;
    }
    let mut separator = false;
    for i in 0..candidate.len()
        invariant
            forall|j: int| 0 <= j < i ==> is_host_char(#[trigger] candidate@[j]),
            separator == exists|j: int|
                0 <= j < i && (#[trigger] candidate@[j] == '-' || candidate@[j] == '.'),
    {
        let c = candidate[i];
        if !is_host_char_exec(c) {
            return false;
        }
        if c == '-' || c == '.' {
            separator = true;
        }
        assert(separator == exists|j: int|
            0 <= j < i + 1 && (#[trigger] candidate@[j] == '-' || candidate@[j] == '.')) by {
            if separator && !(c == '-' || c == '.') {
                let j = choose|j: int|
                    0 <= j < i && (#[trigger] candidate@[j] == '-' || candidate@[j] == '.');
                assert(0 <= j < i + 1);
            }
        }
    }
    separator
}

pub(crate) fn looks_like_username_exec(candidate: &Vec<char>) -> (b: bool)
    ensures
        b == looks_like_username(candidate@),
{
    if candidate.len() == 0 {
        return false;
    }
    let mut letter = false;
    for i in 0..candidate.len()
        invariant
            forall|j: int| 0 <= j < i ==> is_host_char(#[trigger] candidate@[j]),
            letter == exists|j: int| 0 <= j < i && text::is_alpha(#[trigger] candidate@[j]),
    {
        let c = candidate[i];
        if !is_host_char_exec(c) {
            return false;
        }
        if text::is_ascii_alphabetic(c) {
            letter = true;
        }
        assert(letter == exists|j: int| 0 <= j < i + 1 && text::is_alpha(#[trigger] candidate@[j])) by {
            if letter && !text::is_alpha(c) {
                let j = choose|j: int| 0 <= j < i && text::is_alpha(#[trigger] candidate@[j]);
                assert(0 <= j < i + 1);
            }
        }
    }
    letter
}

fn is_octet_exec(p: &Vec<char>) -> (b: bool)
    ensures
        b == is_octet(p@),
{
    if p.len() < 1 || p.len() > 3 {
        return false;
    }
    let mut value: u32 = 0;
    for i in 0..p.len()
        invariant
            p.len() <= 3,
            forall|j: int| 0 <= j < i ==> text::is_digit(#[trigger] p@[j]),
            value == digits_value(p@.take(i as int)),
            value < 1000,
            i < 1 ==> value == 0,
            i < 2 ==> value < 10,
            i < 3 ==> value < 100,
    {
        let c = p[i];
        if !text::is_ascii_digit(c) {
            return false;
        }
        assert(p@.take(i + 1).drop_last() =~= p@.take(i as int));
        value = value * 10 + ((c as u32) - ('0' as u32));
    }
    assert(p@.take(p.len() as int) =~= p@);
    value <= 255
}

pub(crate) fn looks_like_ipv4_exec(candidate: &Vec<char>) -> (b: bool)
    ensures
        b == looks_like_ipv4(candidate@),
{
    let parts = text::split_chars(candidate, '.');
    if parts.len() != 4 {
        return false;
    }
    assert(text::views(parts@).len() == 4);
    for i in 0..4
        invariant
            parts.len() == 4,
            text::views(parts@) == text::split_on(candidate@, '.'),
            forall|j: int| 0 <= j < i ==> is_octet(#[trigger] text::split_on(candidate@, '.')[j]),
    {
        assert(text::views(parts@)[i as int] == parts@[i as int]@);
        if !is_octet_exec(&parts[i]) {
            return false;
        }
    }
    true
}

fn all_hex_exec(p: &Vec<char>) -> (b: bool)
    ensures
        b == all_hex(p@),
{
    for i in 0..p.len()
        invariant
            forall|j: int| 0 <= j < i ==> text::is_hex(#[trigger] p@[j]),
    {
        if !text::is_ascii_hexdigit(p[i]) {
            return false;
        }
    }
    true
}

pub(crate) fn looks_like_uuid_exec(candidate: &Vec<char>) -> (b: bool)
    ensures
        b == looks_like_uuid(candidate@),
{
    let parts = text::split_chars(candidate, '-');
    if parts.len() != 5 {
        return false;
    }
    assert(text::views(parts@).len() == 5);
    for i in 0..5
        invariant
            parts.len() == 5,
            text::views(parts@) == text::split_on(candidate@, '-'),
            forall|j: int|
                0 <= j < i ==> (#[trigger] text::split_on(candidate@, '-')[j]).len() == uuid_group_len(j)
                    && all_hex(text::split_on(candidate@, '-')[j]),
    {
        assert(text::views(parts@)[i as int] == parts@[i as int]@);
        let expected: usize = if i == 0 {
            8
        } else if i == 4 {
            12
        } else {
            4
        };
        if parts[i].len() != expected || !all_hex_exec(&parts[i]) {
            return false;
        }
    }
    true
}

pub(crate) fn is_detectable(core: &Vec<char>) -> (b: bool)
    ensures
        b == detectable(core@),
{
    looks_like_resource(core) || looks_like_url_exec(core) || looks_like_email_exec(core)
        || looks_like_ipv4_exec(core) || looks_like_uuid_exec(core) || looks_like_hostname_exec(
        core,
    )
}

/// Whether any white-space separated token of `contents` has a detectable core.
///
/// Line breaks are white space, so scanning the whole text finds the same tokens
/// as scanning it line by line.
pub(crate) fn contains_detectable_sensitive_content(contents: &Vec<char>) -> (b: bool)
    ensures
        b == has_detectable_content(contents@),
{
    let mut i: usize = 0;
    while i < contents.len()
        invariant
            i <= contents.len(),
            has_detectable_content(contents@) == any_detectable_from(contents@, i as int),
        decreases contents.len() - i,
    {
        if text::is_whitespace(contents[i]) {
            i += 1;
        } else {
            let end = scan_token_end(contents, i);
            proof {
                lemma_token_end(contents@, i as int);
            }
            let token = text::copy_range(contents, i, end);
            let (p, e) = split_token_affixes(&token);
            let core = text::copy_range(&token, p, e);
            if is_detectable(&core) {
                return true;
            }
            i = end;
        }
    }
    false
}

} // verus!
