//! Rendering a symbolized case as a `cpx-v1` projection artifact.
use vstd::prelude::*;

use crate::symbolize::{self, EntityKind, SymbolizedCase};
use crate::text;
use crate::FORMAT_VERSION;

verus! {

#[derive(Debug, Clone, PartialEq, Eq)]
pub struct Projection {
    pub format_version: &'static str,
    pub case_id: String,
    pub body: String,
}

#[derive(Debug, Clone, PartialEq, Eq)]
pub enum ProjectError {
    /// The sanitized text held nothing but white space.
    EmptyCase,
}

impl ProjectError {
    /// The message this error is reported with.
    pub fn message(&self) -> (s: &'static str)
        ensures
            s@ == "cannot project an empty case"@,
    {
        "cannot project an empty case"
    }
}

// ---------------------------------------------------------------------------
// Case ids
// ---------------------------------------------------------------------------

pub open spec fn is_path_sep(c: char) -> bool {
    c == '\\' || c == '/'
}

/// The non-empty runs of characters between `\` and `/` separators.
pub open spec fn path_segments(s: Seq<char>) -> Seq<Seq<char>>
    decreases s.len(),
{
    if s.len() == 0 {
        seq![]
    } else {
        let r = path_segments(s.drop_last());
        let c = s.last();
        if is_path_sep(c) {
            r
        } else if s.len() >= 2 && !is_path_sep(s[s.len() - 2]) {
            r.update(r.len() - 1, r.last().push(c))
        } else {
            r.push(seq![c])
        }
    }
}

/// The position of the last `.`.
pub open spec fn last_dot(s: Seq<char>) -> Option<int>
    decreases s.len(),
{
    if s.len() == 0 {
        None
    } else if s.last() == '.' {
        Some(s.len() - 1)
    } else {
        last_dot(s.drop_last())
    }
}

/// A file name without its last extension.
pub open spec fn file_stem(f: Seq<char>) -> Seq<char> {
    match last_dot(f) {
        Some(k) => f.take(k),
        None => f,
    }
}

/// Letters and digits lower-cased, and each run of other characters turned into a
/// single `-`.
pub open spec fn collapse(s: Seq<char>) -> Seq<char>
    decreases s.len(),
{
    if s.len() == 0 {
        seq![]
    } else {
        let r = collapse(s.drop_last());
        let c = s.last();
        if text::is_alnum(c) {
            r.push(text::to_lower(c))
        } else if r.len() > 0 && r.last() == '-' {
            r
        } else {
            r.push('-')
        }
    }
}

pub open spec fn trim_dash_start(s: Seq<char>) -> Seq<char>
    decreases s.len(),
{
    if s.len() > 0 && s[0] == '-' {
        trim_dash_start(s.drop_first())
    } else {
        s
    }
}

pub open spec fn trim_dash_end(s: Seq<char>) -> Seq<char>
    decreases s.len(),
{
    if s.len() > 0 && s.last() == '-' {
        trim_dash_end(s.drop_last())
    } else {
        s
    }
}

/// A path component as it appears in a case id: collapsed, without leading or
/// trailing `-`.
pub open spec fn normalize_component(s: Seq<char>) -> Seq<char> {
    trim_dash_end(trim_dash_start(collapse(s)))
}

/// The case id of a source name: the normalized stem of its file name; the parent
/// directory's normalized name when the stem is `input` and there is such a
/// directory with a non-empty normalized name; `case` when the stem normalizes to
/// nothing.
pub open spec fn case_id_for(source: Seq<char>) -> Seq<char> {
    let segs = path_segments(source);
    let file_name = if segs.len() > 0 {
        segs.last()
    } else {
        source
    };
    let stem = normalize_component(file_stem(file_name));
    if stem == "input"@ && segs.len() >= 2 && normalize_component(segs[segs.len() - 2]).len()
        > 0 {
        normalize_component(segs[segs.len() - 2])
    } else if stem.len() == 0 {
        "case"@
    } else {
        stem
    }
}

proof fn lemma_path_segments_nonempty(s: Seq<char>)
    ensures
        s.len() > 0 && !is_path_sep(s.last()) ==> path_segments(s).len() > 0,
    decreases s.len(),
{
    if s.len() > 0 {
        lemma_path_segments_nonempty(s.drop_last());
    }
}

fn split_path_segments(source: &Vec<char>) -> (segs: Vec<Vec<char>>)
    ensures
        text::views(segs@) == path_segments(source@),
{
    let mut segs: Vec<Vec<char>> = Vec::new();
    assert(text::views(segs@) =~= path_segments(source@.take(0)));
    for i in 0..source.len()
        invariant
            text::views(segs@) == path_segments(source@.take(i as int)),
    {
        let ghost pre = source@.take(i as int);
        let ghost cur = source@.take(i + 1);
        assert(cur.drop_last() =~= pre);
        let c = source[i];
        assert(cur.last() == c);
        if c == '\\' || c == '/' {
        } else if i >= 1 && source[i - 1] != '\\' && source[i - 1] != '/' {
            assert(cur[cur.len() - 2] == source@[i - 1]);
            proof {
                lemma_path_segments_nonempty(pre);
            }
            let ghost before = segs@;
            let mut last = segs.pop().unwrap();
            last.push(c);
            segs.push(last);
            assert(text::views(segs@) =~= text::views(before).update(
                before.len() - 1,
                text::views(before).last().push(c),
            ));
        } else {
            let ghost before = segs@;
            let mut seg: Vec<char> = Vec::new();
            seg.push(c);
            segs.push(seg);
            assert(text::views(segs@) =~= text::views(before).push(seq![c]));
        }
        assert(text::views(segs@) =~= path_segments(cur));
    }
    assert(source@.take(source.len() as int) =~= source@);
    segs
}

fn stem_of(file_name: &Vec<char>) -> (stem: Vec<char>)
    ensures
        stem@ == file_stem(file_name@),
{
    let mut k = file_name.len();
    assert(file_name@.take(k as int) =~= file_name@);
    while k > 0 && file_name[k - 1] != '.'
        invariant
            k <= file_name.len(),
            last_dot(file_name@) == last_dot(file_name@.take(k as int)),
        decreases k,
    {
        assert(file_name@.take(k as int).drop_last() =~= file_name@.take(k - 1));
        k -= 1;
    }
    if k == 0 {
        text::copy_range(file_name, 0, file_name.len())
    } else {
        text::copy_range(file_name, 0, k - 1)
    }
}

pub fn normalize_case_component(value: &Vec<char>) -> (normalized: Vec<char>)
    ensures
        normalized@ == normalize_component(value@),
{
    let mut out: Vec<char> = Vec::new();
    let mut previous_was_dash = false;
    for i in 0..value.len()
        invariant
            out@ == collapse(value@.take(i as int)),
            previous_was_dash == (out@.len() > 0 && out@.last() == '-'),
    {
        assert(value@.take(i + 1).drop_last() =~= value@.take(i as int));
        let ch = value[i];
        if text::is_ascii_alphanumeric(ch) {
            out.push(text::to_ascii_lowercase(ch));
            previous_was_dash = false;
            assert(text::to_lower(ch) != '-');
        } else if !previous_was_dash {
            out.push('-');
            previous_was_dash = true;
        }
    }
    assert(value@.take(value.len() as int) =~= value@);
    let n = out.len();
    let mut s: usize = 0;
    assert(out@.skip(0) =~= out@);
    while s < n && out[s] == '-'
        invariant
            s <= n == out.len(),
            trim_dash_start(out@) == trim_dash_start(out@.skip(s as int)),
        decreases n - s,
    {
        assert(out@.skip(s as int).drop_first() =~= out@.skip(s + 1));
        s += 1;
    }
    let mut e: usize = n;
    assert(out@.subrange(s as int, n as int) =~= out@.skip(s as int));
    while e > s && out[e - 1] == '-'
        invariant
            s <= e <= n == out.len(),
            normalize_component(value@) == trim_dash_end(out@.subrange(s as int, e as int)),
        decreases e - s,
    {
        assert(out@.subrange(s as int, e as int).drop_last() =~= out@.subrange(s as int, e - 1));
        e -= 1;
    }
    text::copy_range(&out, s, e)
}

pub fn case_id_from_source(source_name: &Vec<char>) -> (id: Vec<char>)
    ensures
        id@ == case_id_for(source_name@),
{
    let segments = split_path_segments(source_name);
    let ghost segs = text::views(segments@);
    let file_name = if segments.len() > 0 {
        assert(segs.last() == segments@[segments.len() - 1]@);
        let f = text::copy_range(
            &segments[segments.len() - 1],
            0,
            segments[segments.len() - 1].len(),
        );
        assert(f@ =~= segs.last());
        f
    } else {
        let f = text::copy_range(source_name, 0, source_name.len());
        assert(f@ =~= source_name@);
        f
    };
    assert(file_name@ == if segs.len() > 0 {
        segs.last()
    } else {
        source_name@
    });
    let stem = stem_of(&file_name);
    let normalized_stem = normalize_case_component(&stem);
    let input = text::chars_of("input");
    if text::chars_equal(&normalized_stem, &input) && segments.len() >= 2 {
        assert(segs[segs.len() - 2] == segments@[segments.len() - 2]@);
        let normalized_parent = normalize_case_component(&segments[segments.len() - 2]);
        if normalized_parent.len() > 0 {
            return normalized_parent;
        }
    }
    if normalized_stem.len() == 0 {
        return text::chars_of("case");
    }
    normalized_stem
}

// ---------------------------------------------------------------------------
// Laws of case ids
// ---------------------------------------------------------------------------

pub open spec fn is_id_char(c: char) -> bool {
    text::is_lower(c) || text::is_digit(c) || c == '-'
}

/// Only lower-case letters, digits and single `-` characters.
pub open spec fn is_clean(s: Seq<char>) -> bool {
    &&& forall|i: int| 0 <= i < s.len() ==> is_id_char(#[trigger] s[i])
    &&& forall|i: int| 0 <= i < s.len() - 1 ==> !(#[trigger] s[i] == '-' && s[i + 1] == '-')
}

/// A usable case id: clean, not empty, and neither starting nor ending with `-`.
pub open spec fn is_case_id(s: Seq<char>) -> bool {
    &&& is_clean(s)
    &&& s.len() > 0
    &&& s[0] != '-'
    &&& s.last() != '-'
}

proof fn lemma_collapse_clean(s: Seq<char>)
    ensures
        is_clean(collapse(s)),
    decreases s.len(),
{
    if s.len() > 0 {
        lemma_collapse_clean(s.drop_last());
        let r = collapse(s.drop_last());
        let c = s.last();
        let out = collapse(s);
        if text::is_alnum(c) {
            assert(is_id_char(text::to_lower(c)));
            assert(text::to_lower(c) != '-');
            assert forall|i: int| 0 <= i < out.len() - 1 implies !(#[trigger] out[i] == '-' && out[i
                + 1] == '-') by {
                if i < r.len() - 1 {
                    assert(out[i] == r[i] && out[i + 1] == r[i + 1]);
                }
            }
        } else if !(r.len() > 0 && r.last() == '-') {
            assert forall|i: int| 0 <= i < out.len() - 1 implies !(#[trigger] out[i] == '-' && out[i
                + 1] == '-') by {
                if i < r.len() - 1 {
                    assert(out[i] == r[i] && out[i + 1] == r[i + 1]);
                }
            }
        }
    }
}

proof fn lemma_collapse_fixed(t: Seq<char>)
    requires
        is_clean(t),
    ensures
        collapse(t) == t,
    decreases t.len(),
{
    if t.len() > 0 {
        let r = t.drop_last();
        assert(is_clean(r)) by {
            assert forall|i: int| 0 <= i < r.len() - 1 implies !(#[trigger] r[i] == '-' && r[i + 1]
                == '-') by {
                assert(r[i] == t[i] && r[i + 1] == t[i + 1]);
            }
        }
        lemma_collapse_fixed(r);
        let c = t.last();
        assert(is_id_char(t[t.len() - 1]));
        if c == '-' && r.len() > 0 {
            assert(!(t[t.len() - 2] == '-' && t[t.len() - 1] == '-'));
        }
        assert(r.push(c) =~= t);
    }
}

proof fn lemma_trim_dash_start(s: Seq<char>)
    ensures
        trim_dash_start(s).len() <= s.len(),
        trim_dash_start(s) == s.skip(s.len() - trim_dash_start(s).len()),
        trim_dash_start(s).len() > 0 ==> trim_dash_start(s)[0] != '-',
    decreases s.len(),
{
    if s.len() > 0 && s[0] == '-' {
        lemma_trim_dash_start(s.drop_first());
        assert(s.drop_first().skip(s.drop_first().len() - trim_dash_start(s).len()) =~= s.skip(
            s.len() - trim_dash_start(s).len(),
        ));
    } else {
        assert(s.skip(0) =~= s);
    }
}

proof fn lemma_trim_dash_end(s: Seq<char>)
    ensures
        trim_dash_end(s).len() <= s.len(),
        trim_dash_end(s) == s.take(trim_dash_end(s).len() as int),
        trim_dash_end(s).len() > 0 ==> trim_dash_end(s).last() != '-',
    decreases s.len(),
{
    if s.len() > 0 && s.last() == '-' {
        lemma_trim_dash_end(s.drop_last());
        assert(s.drop_last().take(trim_dash_end(s).len() as int) =~= s.take(
            trim_dash_end(s).len() as int,
        ));
    } else {
        assert(s.take(s.len() as int) =~= s);
    }
}

proof fn lemma_clean_subrange(s: Seq<char>, a: int, b: int)
    requires
        is_clean(s),
        0 <= a <= b <= s.len(),
    ensures
        is_clean(s.subrange(a, b)),
{
    let t = s.subrange(a, b);
    assert forall|i: int| 0 <= i < t.len() implies is_id_char(#[trigger] t[i]) by {
        assert(t[i] == s[a + i]);
    }
    assert forall|i: int| 0 <= i < t.len() - 1 implies !(#[trigger] t[i] == '-' && t[i + 1]
        == '-') by {
        assert(t[i] == s[a + i] && t[i + 1] == s[a + i + 1]);
    }
}

/// Law: a normalized component holds only lower-case letters, digits and single `-`
/// characters, and neither starts nor ends with `-`.
pub proof fn lemma_normalize_shape(s: Seq<char>)
    ensures
        is_clean(normalize_component(s)),
        normalize_component(s).len() > 0 ==> normalize_component(s)[0] != '-'
            && normalize_component(s).last() != '-',
{
    let c = collapse(s);
    let a = trim_dash_start(c);
    let n = normalize_component(s);
    lemma_collapse_clean(s);
    lemma_trim_dash_start(c);
    lemma_clean_subrange(c, c.len() - a.len(), c.len() as int);
    assert(a =~= c.subrange(c.len() - a.len(), c.len() as int));
    lemma_trim_dash_end(a);
    lemma_clean_subrange(a, 0, n.len() as int);
    assert(n =~= a.subrange(0, n.len() as int));
    if n.len() > 0 {
        assert(n[0] == a[0]);
    }
}

/// Law: normalizing a path component twice gives what normalizing it once gives.
pub proof fn lemma_normalize_idempotent(s: Seq<char>)
    ensures
        normalize_component(normalize_component(s)) == normalize_component(s),
{
    let n = normalize_component(s);
    lemma_normalize_shape(s);
    lemma_collapse_fixed(n);
    if n.len() > 0 {
        assert(trim_dash_start(n) == n);
        assert(trim_dash_end(n) == n);
    } else {
        assert(trim_dash_start(n) == n);
        assert(trim_dash_end(n) == n);
    }
}

/// The text without its `-` characters.
pub open spec fn without_dashes(s: Seq<char>) -> Seq<char>
    decreases s.len(),
{
    if s.len() == 0 {
        seq![]
    } else {
        without_dashes(s.drop_last()) + if s.last() == '-' {
            Seq::<char>::empty()
        } else {
            seq![s.last()]
        }
    }
}

/// The ASCII letters and digits of the text, lower-cased, in order.
pub open spec fn lowered_alnum(s: Seq<char>) -> Seq<char>
    decreases s.len(),
{
    if s.len() == 0 {
        seq![]
    } else {
        lowered_alnum(s.drop_last()) + if text::is_alnum(s.last()) {
            seq![text::to_lower(s.last())]
        } else {
            Seq::<char>::empty()
        }
    }
}

proof fn lemma_without_dashes_push(r: Seq<char>, c: char)
    ensures
        without_dashes(r.push(c)) == without_dashes(r) + if c == '-' {
            Seq::<char>::empty()
        } else {
            seq![c]
        },
{
    assert(r.push(c).drop_last() =~= r);
}

proof fn lemma_without_dashes_collapse(s: Seq<char>)
    ensures
        without_dashes(collapse(s)) == lowered_alnum(s),
    decreases s.len(),
{
    if s.len() > 0 {
        lemma_without_dashes_collapse(s.drop_last());
        let r = collapse(s.drop_last());
        let c = s.last();
        if text::is_alnum(c) {
            assert(text::to_lower(c) != '-');
            lemma_without_dashes_push(r, text::to_lower(c));
        } else if !(r.len() > 0 && r.last() == '-') {
            lemma_without_dashes_push(r, '-');
            assert(without_dashes(r) + Seq::<char>::empty() =~= without_dashes(r));
        }
        assert(lowered_alnum(s) =~= lowered_alnum(s.drop_last()) + if text::is_alnum(c) {
            seq![text::to_lower(c)]
        } else {
            Seq::<char>::empty()
        });
        assert(without_dashes(collapse(s)) =~= lowered_alnum(s));
    }
}

proof fn lemma_without_dashes_concat(a: Seq<char>, b: Seq<char>)
    ensures
        without_dashes(a + b) == without_dashes(a) + without_dashes(b),
    decreases b.len(),
{
    if b.len() == 0 {
        assert(a + b =~= a);
        assert(without_dashes(a) + without_dashes(b) =~= without_dashes(a));
    } else {
        lemma_without_dashes_concat(a, b.drop_last());
        assert((a + b).drop_last() =~= a + b.drop_last());
        assert(without_dashes(a + b) =~= without_dashes(a) + without_dashes(b));
    }
}

proof fn lemma_without_dashes_trim_start(s: Seq<char>)
    ensures
        without_dashes(trim_dash_start(s)) == without_dashes(s),
    decreases s.len(),
{
    if s.len() > 0 && s[0] == '-' {
        lemma_without_dashes_trim_start(s.drop_first());
        assert(seq!['-'] + s.drop_first() =~= s);
        lemma_without_dashes_concat(seq!['-'], s.drop_first());
        lemma_without_dashes_push(Seq::<char>::empty(), '-');
        assert(Seq::<char>::empty().push('-') =~= seq!['-']);
        assert(without_dashes(Seq::<char>::empty()) =~= Seq::<char>::empty());
        assert(without_dashes(seq!['-']) =~= Seq::<char>::empty());
        assert(without_dashes(s) =~= without_dashes(s.drop_first()));
    }
}

proof fn lemma_without_dashes_trim_end(s: Seq<char>)
    ensures
        without_dashes(trim_dash_end(s)) == without_dashes(s),
    decreases s.len(),
{
    if s.len() > 0 && s.last() == '-' {
        lemma_without_dashes_trim_end(s.drop_last());
        assert(without_dashes(s) =~= without_dashes(s.drop_last()));
    }
}

/// Law: dropping the `-` characters of a normalized component leaves exactly the
/// ASCII letters and digits of the input, lower-cased, in order.
pub proof fn lemma_normalize_keeps_letters_and_digits(s: Seq<char>)
    ensures
        without_dashes(normalize_component(s)) == lowered_alnum(s),
{
    let c = collapse(s);
    lemma_without_dashes_collapse(s);
    lemma_without_dashes_trim_start(c);
    lemma_without_dashes_trim_end(trim_dash_start(c));
}

/// Law: every source name yields a usable case id: lower-case letters, digits and
/// single `-` characters, not empty, and neither starting nor ending with `-`.
pub proof fn lemma_case_id_shape(source: Seq<char>)
    ensures
        is_case_id(case_id_for(source)),
{
    let segs = path_segments(source);
    let file_name = if segs.len() > 0 {
        segs.last()
    } else {
        source
    };
    lemma_normalize_shape(file_stem(file_name));
    if segs.len() >= 2 {
        lemma_normalize_shape(segs[segs.len() - 2]);
    }
    reveal_strlit("case");
    let id = case_id_for(source);
    if id == "case"@ {
        assert(is_id_char(id[0]) && is_id_char(id[1]) && is_id_char(id[2]) && is_id_char(id[3]));
    }
}

// ---------------------------------------------------------------------------
// The artifact
// ---------------------------------------------------------------------------

/// The order in which the summary lists entity counts.
pub open spec fn summary_order() -> Seq<EntityKind> {
    seq![
        EntityKind::CustomerName,
        EntityKind::TenantId,
        EntityKind::SubscriptionId,
        EntityKind::EmailAddress,
        EntityKind::Username,
        EntityKind::Hostname,
        EntityKind::IpAddress,
        EntityKind::ResourceId,
        EntityKind::CustomerUrl,
        EntityKind::InternalIdentifier,
    ]
}

/// ` <key>=<count>` and a line break, for a kind with at least one value.
pub open spec fn summary_line(es: Seq<symbolize::EntryModel>, k: EntityKind) -> Seq<char> {
    let n = symbolize::count_kind(es, k);
    if n > 0 {
        seq![' '] + symbolize::kind_summary_key(k) + seq!['='] + text::decimal(n) + seq!['\n']
    } else {
        seq![]
    }
}

pub open spec fn summary_lines(es: Seq<symbolize::EntryModel>, ks: Seq<EntityKind>) -> Seq<char>
    decreases ks.len(),
{
    if ks.len() == 0 {
        seq![]
    } else {
        summary_lines(es, ks.drop_last()) + summary_line(es, ks.last())
    }
}

/// ` t+<index, two digits at least> <line>` and a line break.
pub open spec fn event_line(i: nat, line: Seq<char>) -> Seq<char> {
    " t+"@ + text::decimal2(i) + seq![' '] + line + seq!['\n']
}

pub open spec fn event_lines(ls: Seq<Seq<char>>) -> Seq<char>
    decreases ls.len(),
{
    if ls.len() == 0 {
        seq![]
    } else {
        event_lines(ls.drop_last()) + event_line((ls.len() - 1) as nat, ls.last())
    }
}

/// The artifact: the `FORMAT` and `CASE` records, a `SUMMARY` with the line count,
/// the number of symbols and the count of each kind present, then `EVENTS` with one
/// numbered record per sanitized line.
pub open spec fn projection_body(
    case_id: Seq<char>,
    line_count: nat,
    es: Seq<symbolize::EntryModel>,
    sanitized: Seq<char>,
) -> Seq<char> {
    "FORMAT "@ + FORMAT_VERSION@ + seq!['\n'] + "CASE "@ + case_id + seq!['\n'] + "SUMMARY\n"@
        + " line_count="@ + text::decimal(line_count) + seq!['\n'] + " symbolized_entities="@
        + text::decimal(es.len()) + seq!['\n'] + summary_lines(es, summary_order())
        + "EVENTS\n"@ + event_lines(text::lines(sanitized))
}

/// Law: the first line of every projection is the `FORMAT` record with the current
/// format version.
pub proof fn lemma_projection_format_first(
    case_id: Seq<char>,
    line_count: nat,
    es: Seq<symbolize::EntryModel>,
    sanitized: Seq<char>,
)
    ensures
        text::lines(projection_body(case_id, line_count, es, sanitized)).len() >= 1,
        text::lines(projection_body(case_id, line_count, es, sanitized))[0] == "FORMAT "@
            + FORMAT_VERSION@,
{
    reveal_strlit("FORMAT ");
    reveal_strlit("cpx-v1");
    let first = "FORMAT "@ + FORMAT_VERSION@;
    let rest = "CASE "@ + case_id + seq!['\n'] + "SUMMARY\n"@ + " line_count="@ + text::decimal(
        line_count,
    ) + seq!['\n'] + " symbolized_entities="@ + text::decimal(es.len()) + seq!['\n']
        + summary_lines(es, summary_order()) + "EVENTS\n"@ + event_lines(text::lines(sanitized));
    assert(projection_body(case_id, line_count, es, sanitized) =~= first + seq!['\n'] + rest);
    assert(first =~= seq!['F', 'O', 'R', 'M', 'A', 'T', ' ', 'c', 'p', 'x', '-', 'v', '1']);
    text::lemma_first_line(first, rest);
    assert(text::strip_cr(first) == first);
}

/// Where the summary line of the `i`-th kind of `ks` stands in the summary.
proof fn lemma_summary_lines_hold(es: Seq<symbolize::EntryModel>, ks: Seq<EntityKind>, i: int) -> (p:
    int)
    requires
        0 <= i < ks.len(),
    ensures
        text::matches_at(summary_lines(es, ks), summary_line(es, ks[i]), p),
    decreases ks.len(),
{
    let pre = ks.drop_last();
    let head = summary_lines(es, pre);
    let line = summary_line(es, ks.last());
    if i == ks.len() - 1 {
        assert((head + line).subrange(head.len() as int, (head.len() + line.len()) as int) =~= line);
        head.len() as int
    } else {
        let q = lemma_summary_lines_hold(es, pre, i);
        assert(pre[i] == ks[i]);
        text::lemma_matches_at_extend(seq![], head, line, summary_line(es, ks[i]), q);
        assert(Seq::<char>::empty() + head + line =~= head + line);
        q
    }
}

/// Law: for every kind with at least one value in the table, the projection holds
/// the summary line ` <key of the kind>=<number of values of the kind>`; no kind
/// that occurs is left out of the summary.
pub proof fn lemma_summary_lists_every_present_kind(
    case_id: Seq<char>,
    line_count: nat,
    es: Seq<symbolize::EntryModel>,
    sanitized: Seq<char>,
    k: EntityKind,
)
    requires
        symbolize::count_kind(es, k) > 0,
    ensures
        text::occurs_in(
            projection_body(case_id, line_count, es, sanitized),
            seq![' '] + symbolize::kind_summary_key(k) + seq!['='] + text::decimal(
                symbolize::count_kind(es, k),
            ) + seq!['\n'],
        ),
{
    let order = summary_order();
    let i: int = match k {
        EntityKind::CustomerName => 0,
        EntityKind::TenantId => 1,
        EntityKind::SubscriptionId => 2,
        EntityKind::EmailAddress => 3,
        EntityKind::Username => 4,
        EntityKind::Hostname => 5,
        EntityKind::IpAddress => 6,
        EntityKind::ResourceId => 7,
        EntityKind::CustomerUrl => 8,
        EntityKind::InternalIdentifier => 9,
    };
    assert(order[i] == k);
    let line = summary_line(es, k);
    let p = lemma_summary_lines_hold(es, order, i);
    let pre = "FORMAT "@ + FORMAT_VERSION@ + seq!['\n'] + "CASE "@ + case_id + seq!['\n']
        + "SUMMARY\n"@ + " line_count="@ + text::decimal(line_count) + seq!['\n']
        + " symbolized_entities="@ + text::decimal(es.len()) + seq!['\n'];
    let post = "EVENTS\n"@ + event_lines(text::lines(sanitized));
    let sl = summary_lines(es, order);
    text::lemma_matches_at_extend(pre, sl, post, line, p);
    assert(projection_body(case_id, line_count, es, sanitized) =~= pre + sl + post);
    assert(text::matches_at(projection_body(case_id, line_count, es, sanitized), line, pre.len() + p));
}

proof fn lemma_segments_plain(t: Seq<char>)
    requires
        t.len() > 0,
        forall|i: int| 0 <= i < t.len() ==> !is_path_sep(#[trigger] t[i]),
    ensures
        path_segments(t) == seq![t],
    decreases t.len(),
{
    let pre = t.drop_last();
    assert(!is_path_sep(t.last()));
    if t.len() == 1 {
        assert(path_segments(pre).len() == 0);
        assert(path_segments(t) == path_segments(pre).push(seq![t.last()]));
        assert(seq![t.last()] =~= t);
        assert(path_segments(t) =~~= seq![t]);
    } else {
        lemma_segments_plain(pre);
        assert(!is_path_sep(t[t.len() - 2]));
        let r = path_segments(pre);
        assert(path_segments(t) == r.update(r.len() - 1, r.last().push(t.last())));
        assert(pre.push(t.last()) =~= t);
        assert(path_segments(t) =~~= seq![t]);
    }
}

proof fn lemma_segments_after_sep(x: Seq<char>, sep: char, t: Seq<char>)
    requires
        is_path_sep(sep),
        t.len() > 0,
        forall|i: int| 0 <= i < t.len() ==> !is_path_sep(#[trigger] t[i]),
    ensures
        path_segments(x + seq![sep] + t) == path_segments(x).push(t),
    decreases t.len(),
{
    let s = x + seq![sep] + t;
    let pre = t.drop_last();
    assert((x + seq![sep]).drop_last() =~= x);
    assert(path_segments(x + seq![sep]) == path_segments(x));
    if t.len() == 1 {
        assert(s.drop_last() =~= x + seq![sep]);
        assert(s[s.len() - 2] == sep);
        assert(seq![t.last()] =~= t);
    } else {
        lemma_segments_after_sep(x, sep, pre);
        assert(s.drop_last() =~= x + seq![sep] + pre);
        assert(s[s.len() - 2] == t[t.len() - 2]);
        assert(pre.push(t.last()) =~= t);
    }
}

proof fn lemma_last_dot_before(x: Seq<char>, e: Seq<char>)
    requires
        forall|i: int| 0 <= i < e.len() ==> #[trigger] e[i] != '.',
    ensures
        last_dot(x + seq!['.'] + e) == Some(x.len() as int),
    decreases e.len(),
{
    let s = x + seq!['.'] + e;
    if e.len() == 0 {
        assert(s.last() == '.');
    } else {
        assert(s.drop_last() =~= x + seq!['.'] + e.drop_last());
        lemma_last_dot_before(x, e.drop_last());
    }
}

/// Law: a source named `<dir>/input.<ext>` (`/` or `\`), at the top or under further
/// directories, whose directory name normalizes to something non-empty, takes that
/// normalized directory name as its case id.
pub proof fn lemma_input_takes_directory_name(
    prefix: Seq<char>,
    dir: Seq<char>,
    sep: char,
    ext: Seq<char>,
)
    requires
        prefix.len() == 0 || is_path_sep(prefix.last()),
        dir.len() > 0,
        forall|i: int| 0 <= i < dir.len() ==> !is_path_sep(#[trigger] dir[i]),
        is_path_sep(sep),
        forall|i: int| 0 <= i < ext.len() ==> !is_path_sep(#[trigger] ext[i]) && ext[i] != '.',
        normalize_component(dir).len() > 0,
    ensures
        case_id_for(prefix + dir + seq![sep] + "input."@ + ext) == normalize_component(dir),
{
    reveal_strlit("input.");
    reveal_strlit("input");
    let inp = seq!['i', 'n', 'p', 'u', 't'];
    let file = "input."@ + ext;
    assert(file =~= inp + seq!['.'] + ext);
    assert forall|i: int| 0 <= i < file.len() implies !is_path_sep(#[trigger] file[i]) by {
        if i >= 6 {
            assert(file[i] == ext[i - 6]);
        }
    }
    let source = prefix + dir + seq![sep] + file;
    assert(source =~= (prefix + dir) + seq![sep] + file);
    lemma_segments_after_sep(prefix + dir, sep, file);
    if prefix.len() == 0 {
        assert(prefix + dir =~= dir);
        lemma_segments_plain(dir);
    } else {
        let p0 = prefix.drop_last();
        assert(prefix + dir =~= p0 + seq![prefix.last()] + dir);
        lemma_segments_after_sep(p0, prefix.last(), dir);
    }
    assert(prefix + dir + seq![sep] + "input."@ + ext =~= source);
    let segs = path_segments(source);
    assert(segs.len() >= 2);
    assert(segs.last() == file);
    assert(segs[segs.len() - 2] == dir);
    lemma_last_dot_before(inp, ext);
    assert(file_stem(file) =~= inp);
    assert(collapse(inp) =~= inp) by {
        reveal_with_fuel(collapse, 6);
        assert(inp.drop_last() =~= seq!['i', 'n', 'p', 'u']);
        assert(inp.drop_last().drop_last() =~= seq!['i', 'n', 'p']);
        assert(inp.drop_last().drop_last().drop_last() =~= seq!['i', 'n']);
        assert(seq!['i', 'n'].drop_last() =~= seq!['i']);
        assert(seq!['i'].drop_last() =~= Seq::<char>::empty());
    }
    assert(trim_dash_start(inp) == inp);
    assert(trim_dash_end(inp) == inp);
    assert(inp =~= "input"@);
    assert(normalize_component(file_stem(file)) == "input"@);
}

/// Law: a source named `<name>.<ext>`, at the top or under directories, whose name does
/// not normalize to `input`, takes the normalized name as its case id, or `case` when
/// the name normalizes to nothing.
pub proof fn lemma_case_id_from_file_name(prefix: Seq<char>, name: Seq<char>, ext: Seq<char>)
    requires
        prefix.len() == 0 || is_path_sep(prefix.last()),
        name.len() > 0,
        forall|i: int| 0 <= i < name.len() ==> !is_path_sep(#[trigger] name[i]),
        forall|i: int| 0 <= i < ext.len() ==> !is_path_sep(#[trigger] ext[i]) && ext[i] != '.',
        normalize_component(name) != "input"@,
    ensures
        case_id_for(prefix + name + seq!['.'] + ext) == if normalize_component(name).len() == 0 {
            "case"@
        } else {
            normalize_component(name)
        },
{
    let file = name + seq!['.'] + ext;
    assert forall|i: int| 0 <= i < file.len() implies !is_path_sep(#[trigger] file[i]) by {
        if i < name.len() {
            assert(file[i] == name[i]);
        } else if i > name.len() {
            assert(file[i] == ext[i - name.len() - 1]);
        }
    }
    let source = prefix + file;
    assert(prefix + name + seq!['.'] + ext =~= source);
    if prefix.len() == 0 {
        assert(source =~= file);
        lemma_segments_plain(file);
    } else {
        let p0 = prefix.drop_last();
        assert(source =~= p0 + seq![prefix.last()] + file);
        lemma_segments_after_sep(p0, prefix.last(), file);
    }
    let segs = path_segments(source);
    assert(segs.len() >= 1);
    assert(segs.last() == file);
    lemma_last_dot_before(name, ext);
    assert(file_stem(file) =~= name);
}

/// Law: a projection depends on the symbol table only through its size and the
/// number of entries of each kind; raw values and their symbols never reach the
/// artifact.
pub proof fn lemma_projection_ignores_raw_values(
    case_id: Seq<char>,
    line_count: nat,
    es1: Seq<symbolize::EntryModel>,
    es2: Seq<symbolize::EntryModel>,
    sanitized: Seq<char>,
)
    requires
        es1.len() == es2.len(),
        forall|k: EntityKind| #[trigger]
            symbolize::count_kind(es1, k) == symbolize::count_kind(es2, k),
    ensures
        projection_body(case_id, line_count, es1, sanitized) == projection_body(
            case_id,
            line_count,
            es2,
            sanitized,
        ),
{
    lemma_summary_lines_same(es1, es2, summary_order());
}

proof fn lemma_summary_lines_same(
    es1: Seq<symbolize::EntryModel>,
    es2: Seq<symbolize::EntryModel>,
    ks: Seq<EntityKind>,
)
    requires
        forall|k: EntityKind| #[trigger]
            symbolize::count_kind(es1, k) == symbolize::count_kind(es2, k),
    ensures
        summary_lines(es1, ks) == summary_lines(es2, ks),
    decreases ks.len(),
{
    if ks.len() > 0 {
        lemma_summary_lines_same(es1, es2, ks.drop_last());
        assert(symbolize::count_kind(es1, ks.last()) == symbolize::count_kind(es2, ks.last()));
    }
}

fn push_str(out: &mut Vec<char>, s: &str)
    ensures
        final(out)@ == old(out)@ + s@,
{
    let v = text::chars_of(s);
    text::append_chars(out, &v);
}

/// Renders a symbolized case as a projection; fails when its sanitized text is blank.
pub fn project(case: &SymbolizedCase) -> (r: Result<Projection, ProjectError>)
    ensures
        r is Err <==> text::trim(case.sanitized_contents@).len() == 0,
        r matches Err(e) ==> e == ProjectError::EmptyCase,
        r matches Ok(p) ==> {
            &&& p.format_version@ == FORMAT_VERSION@
            &&& p.case_id@ == case_id_for(case.source_name@)
            &&& is_case_id(p.case_id@)
            &&& text::lines(p.body@)[0] == "FORMAT "@ + FORMAT_VERSION@
            &&& p.body@ == projection_body(
                p.case_id@,
                case.line_count as nat,
                symbolize::entry_models(case.entries@),
                case.sanitized_contents@,
            )
        },
{
    let sanitized = text::chars_of(case.sanitized_contents.as_str());
    if text::is_blank(&sanitized) {
        return Err(ProjectError::EmptyCase);
    }
    let source = text::chars_of(case.source_name.as_str());
    let case_id = case_id_from_source(&source);
    let ghost es = symbolize::entry_models(case.entries@);
    let mut body: Vec<char> = Vec::new();
    push_str(&mut body, "FORMAT ");
    push_str(&mut body, FORMAT_VERSION);
    body.push('\n');
    push_str(&mut body, "CASE ");
    text::append_chars(&mut body, &case_id);
    body.push('\n');
    push_str(&mut body, "SUMMARY\n");
    push_str(&mut body, " line_count=");
    text::push_decimal(&mut body, case.line_count as u128);
    body.push('\n');
    push_str(&mut body, " symbolized_entities=");
    text::push_decimal(&mut body, case.symbol_count() as u128);
    body.push('\n');
    assert(es.len() == case.entries@.len());
    let ghost head = body@;
    let kinds: [EntityKind; 10] = [
        EntityKind::CustomerName,
        EntityKind::TenantId,
        EntityKind::SubscriptionId,
        EntityKind::EmailAddress,
        EntityKind::Username,
        EntityKind::Hostname,
        EntityKind::IpAddress,
        EntityKind::ResourceId,
        EntityKind::CustomerUrl,
        EntityKind::InternalIdentifier,
    ];
    assert(kinds@ =~= summary_order());
    assert(summary_order().take(0) =~= seq![]);
    for k in 0..10
        invariant
            kinds@ == summary_order(),
            es == symbolize::entry_models(case.entries@),
            body@ == head + summary_lines(es, summary_order().take(k as int)),
    {
        let kind = kinds[k];
        assert(summary_order().take(k + 1).drop_last() =~= summary_order().take(k as int));
        let count = case.count_by_kind(kind);
        if count > 0 {
            body.push(' ');
            push_str(&mut body, kind.summary_key());
            body.push('=');
            text::push_decimal(&mut body, count as u128);
            body.push('\n');
        }
        assert(body@ =~= head + summary_lines(es, summary_order().take(k + 1)));
    }
    assert(summary_order().take(10) =~= summary_order());
    push_str(&mut body, "EVENTS\n");
    let lines = text::split_lines(&sanitized);
    let ghost ls = text::views(lines@);
    let ghost head2 = body@;
    assert(ls.take(0) =~= seq![]);
    for index in 0..lines.len()
        invariant
            ls == text::views(lines@),
            body@ == head2 + event_lines(ls.take(index as int)),
    {
        assert(ls.take(index + 1).drop_last() =~= ls.take(index as int));
        assert(ls[index as int] == lines@[index as int]@);
        push_str(&mut body, " t+");
        text::push_decimal2(&mut body, index as u128);
        body.push(' ');
        text::append_chars(&mut body, &lines[index]);
        body.push('\n');
        assert(body@ =~= head2 + event_lines(ls.take(index + 1)));
    }
    assert(ls.take(lines.len() as int) =~= ls);
    assert(body@ =~= projection_body(
        case_id@,
        case.line_count as nat,
        es,
        case.sanitized_contents@,
    ));
    proof {
        lemma_case_id_shape(case.source_name@);
        lemma_projection_format_first(case_id@, case.line_count as nat, es, case.sanitized_contents@);
    }
    Ok(
        Projection {
            format_version: FORMAT_VERSION,
            case_id: text::string_of(&case_id),
            body: text::string_of(&body),
        },
    )
}

} // verus!
