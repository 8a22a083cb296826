//! Restoring symbolic model output to the original values.
//!
//! A response is read as a sequence of words, the maximal runs of ASCII letters and
//! digits, and the characters between them. Every word that is the symbol of an
//! entry of the case's vault is replaced by that entry's raw value; everything else
//! is copied unchanged. Symbols are made of letters and digits only, so a symbol
//! stands as a word of its own wherever punctuation or white space surrounds it
//! (`C1`, `(URL2)`, `User:U1`, `S1>S2`).
use vstd::prelude::*;

use crate::symbolize::{accepted, entry_models, symbolized, EntryModel, SymbolEntry};
use crate::text;
use crate::vault::VaultHandle;

verus! {

#[derive(Debug, Clone, PartialEq, Eq)]
pub struct RehydrateRequest {
    pub projection_response: String,
    pub vault: VaultHandle,
}

#[derive(Debug, Clone, PartialEq, Eq)]
pub enum RehydrateError {
    /// The response held nothing but white space.
    EmptyInput,
}

impl RehydrateError {
    /// The message this error is reported with.
    pub fn message(&self) -> (s: &'static str)
        ensures
            s@ == "rehydration input was empty"@,
    {
        "rehydration input was empty"
    }
}

// ---------------------------------------------------------------------------
// Words and their restoration
// ---------------------------------------------------------------------------

/// The end of the run of ASCII letters and digits that starts at `i`.
pub open spec fn word_end(s: Seq<char>, i: int) -> int
    decreases s.len() - i,
{
    if 0 <= i < s.len() && text::is_alnum(s[i]) {
        word_end(s, i + 1)
    } else {
        i
    }
}

pub proof fn lemma_word_end(s: Seq<char>, i: int)
    requires
        0 <= i <= s.len(),
    ensures
        i <= word_end(s, i) <= s.len(),
        i < s.len() && text::is_alnum(s[i]) ==> i < word_end(s, i),
        forall|j: int| i <= j < word_end(s, i) ==> text::is_alnum(#[trigger] s[j]),
        word_end(s, i) < s.len() ==> !text::is_alnum(s[word_end(s, i)]),
    decreases s.len() - i,
{
    if i < s.len() && text::is_alnum(s[i]) {
        lemma_word_end(s, i + 1);
    }
}

/// The position of the first entry whose symbol is `w`.
pub open spec fn symbol_position(es: Seq<EntryModel>, w: Seq<char>) -> Option<int>
    decreases es.len(),
{
    if es.len() == 0 {
        None
    } else {
        match symbol_position(es.drop_last(), w) {
            Some(i) => Some(i),
            None => if es.last().symbol == w {
                Some(es.len() - 1)
            } else {
                None
            },
        }
    }
}

pub proof fn lemma_symbol_position(es: Seq<EntryModel>, w: Seq<char>)
    ensures
        symbol_position(es, w) is None <==> forall|j: int|
            0 <= j < es.len() ==> (#[trigger] es[j]).symbol != w,
        symbol_position(es, w) matches Some(i) ==> {
            &&& 0 <= i < es.len()
            &&& es[i].symbol == w
            &&& forall|j: int| 0 <= j < i ==> (#[trigger] es[j]).symbol != w
        },
    decreases es.len(),
{
    if es.len() > 0 {
        let pre = es.drop_last();
        lemma_symbol_position(pre, w);
        assert forall|j: int| 0 <= j < pre.len() implies pre[j] == es[j] by {}
    }
}

/// A word as rehydration gives it back: the raw value of the first entry whose
/// symbol it is, or the word itself.
pub open spec fn restore_word(w: Seq<char>, es: Seq<EntryModel>) -> Seq<char> {
    match symbol_position(es, w) {
        Some(k) => es[k].raw,
        None => w,
    }
}

/// The text from position `i` on, with every word restored and every other
/// character copied.
pub open spec fn restore_from(s: Seq<char>, i: int, es: Seq<EntryModel>) -> Seq<char>
    decreases s.len() - i,
{
    if i < 0 || i >= s.len() {
        seq![]
    } else if !text::is_alnum(s[i]) {
        seq![s[i]] + restore_from(s, i + 1, es)
    } else {
        let e = word_end(s, i);
        proof {
            lemma_word_end(s, i);
        }
        restore_word(s.subrange(i, e), es) + restore_from(s, e, es)
    }
}

/// The text with every word that is a symbol of `es` replaced by its raw value.
pub open spec fn restore(s: Seq<char>, es: Seq<EntryModel>) -> Seq<char> {
    restore_from(s, 0, es)
}

/// Whether `a` followed by `b` has no word running across the seam.
pub open spec fn word_boundary(a: Seq<char>, b: Seq<char>) -> bool {
    ||| a.len() == 0
    ||| b.len() == 0
    ||| !text::is_alnum(a.last())
    ||| !text::is_alnum(b[0])
}

proof fn lemma_word_end_shift(x: Seq<char>, b: Seq<char>, j: int)
    requires
        0 <= j <= b.len(),
    ensures
        word_end(x + b, x.len() + j) == x.len() + word_end(b, j),
    decreases b.len() - j,
{
    if j < b.len() {
        assert((x + b)[x.len() + j] == b[j]);
        if text::is_alnum(b[j]) {
            lemma_word_end_shift(x, b, j + 1);
        }
    }
}

proof fn lemma_restore_shift(x: Seq<char>, b: Seq<char>, j: int, es: Seq<EntryModel>)
    requires
        0 <= j <= b.len(),
    ensures
        restore_from(x + b, x.len() + j, es) == restore_from(b, j, es),
    decreases b.len() - j,
{
    if j < b.len() {
        assert((x + b)[x.len() + j] == b[j]);
        if !text::is_alnum(b[j]) {
            lemma_restore_shift(x, b, j + 1, es);
        } else {
            lemma_word_end(b, j);
            lemma_word_end_shift(x, b, j);
            let e = word_end(b, j);
            assert((x + b).subrange(x.len() + j, x.len() + e) =~= b.subrange(j, e));
            lemma_restore_shift(x, b, e, es);
        }
    }
}

proof fn lemma_word_end_prefix(a: Seq<char>, b: Seq<char>, i: int)
    requires
        0 <= i < a.len(),
        text::is_alnum(a[i]),
        word_boundary(a, b),
    ensures
        word_end(a + b, i) == word_end(a, i),
    decreases a.len() - i,
{
    assert((a + b)[i] == a[i]);
    assert(word_end(a + b, i) == word_end(a + b, i + 1));
    assert(word_end(a, i) == word_end(a, i + 1));
    if i + 1 < a.len() {
        assert((a + b)[i + 1] == a[i + 1]);
        if text::is_alnum(a[i + 1]) {
            lemma_word_end_prefix(a, b, i + 1);
        } else {
            assert(word_end(a, i + 1) == i + 1);
            assert(word_end(a + b, i + 1) == i + 1);
        }
    } else {
        assert(word_end(a, i + 1) == i + 1);
        if b.len() > 0 {
            assert((a + b)[a.len() as int] == b[0]);
        }
        assert(word_end(a + b, i + 1) == i + 1);
    }
}

/// Rehydrating two texts that meet at a word boundary is rehydrating each on its own.
pub proof fn lemma_restore_concat(a: Seq<char>, b: Seq<char>, i: int, es: Seq<EntryModel>)
    requires
        0 <= i <= a.len(),
        word_boundary(a, b),
    ensures
        restore_from(a + b, i, es) == restore_from(a, i, es) + restore(b, es),
    decreases a.len() - i,
{
    if i == a.len() {
        lemma_restore_shift(a, b, 0, es);
        assert(restore_from(a, i, es) + restore(b, es) =~= restore(b, es));
    } else {
        assert((a + b)[i] == a[i]);
        if !text::is_alnum(a[i]) {
            lemma_restore_concat(a, b, i + 1, es);
            assert(restore_from(a + b, i, es) =~= restore_from(a, i, es) + restore(b, es));
        } else {
            lemma_word_end(a, i);
            lemma_word_end_prefix(a, b, i);
            let e = word_end(a, i);
            assert((a + b).subrange(i, e) =~= a.subrange(i, e));
            lemma_restore_concat(a, b, e, es);
            assert(restore_from(a + b, i, es) =~= restore_from(a, i, es) + restore(b, es));
        }
    }
}

/// A text that is one whole word is restored as that word.
proof fn lemma_restore_whole_word(w: Seq<char>, es: Seq<EntryModel>)
    requires
        w.len() > 0,
        forall|i: int| 0 <= i < w.len() ==> text::is_alnum(#[trigger] w[i]),
    ensures
        restore(w, es) == restore_word(w, es),
{
    lemma_word_end(w, 0);
    let e = word_end(w, 0);
    if e < w.len() {
        assert(text::is_alnum(w[e]));
    }
    assert(w.subrange(0, e) =~= w);
    assert(restore_word(w, es) + restore_from(w, e, es) =~= restore_word(w, es));
}

/// Law: in any text, a word (a non-empty run of ASCII letters and digits with no
/// letter or digit on either side) that is the symbol of an entry comes back as the
/// raw value of the first entry with that symbol, whatever characters stand around
/// it; the text on either side is rehydrated on its own.
pub proof fn lemma_restore_symbol_word(
    p: Seq<char>,
    w: Seq<char>,
    q: Seq<char>,
    es: Seq<EntryModel>,
    k: int,
)
    requires
        w.len() > 0,
        forall|i: int| 0 <= i < w.len() ==> text::is_alnum(#[trigger] w[i]),
        p.len() == 0 || !text::is_alnum(p.last()),
        q.len() == 0 || !text::is_alnum(q[0]),
        0 <= k < es.len(),
        es[k].symbol == w,
        forall|j: int| 0 <= j < k ==> (#[trigger] es[j]).symbol != w,
    ensures
        restore(p + w + q, es) == restore(p, es) + es[k].raw + restore(q, es),
{
    lemma_restore_concat(p + w, q, 0, es);
    lemma_restore_concat(p, w, 0, es);
    lemma_restore_whole_word(w, es);
    lemma_symbol_position(es, w);
    if let Some(f) = symbol_position(es, w) {
        if f < k {
            assert(es[f].symbol == w);
        } else if f > k {
            assert(es[k].symbol != w);
        }
    }
}

/// Law: a word that is the symbol of no entry is kept as it is, whatever characters
/// stand around it; the text on either side is rehydrated on its own.
pub proof fn lemma_restore_other_word(p: Seq<char>, w: Seq<char>, q: Seq<char>, es: Seq<EntryModel>)
    requires
        w.len() > 0,
        forall|i: int| 0 <= i < w.len() ==> text::is_alnum(#[trigger] w[i]),
        p.len() == 0 || !text::is_alnum(p.last()),
        q.len() == 0 || !text::is_alnum(q[0]),
        forall|j: int| 0 <= j < es.len() ==> (#[trigger] es[j]).symbol != w,
    ensures
        restore(p + w + q, es) == restore(p, es) + w + restore(q, es),
{
    lemma_restore_concat(p + w, q, 0, es);
    lemma_restore_concat(p, w, 0, es);
    lemma_restore_whole_word(w, es);
    lemma_symbol_position(es, w);
}

/// Where the word starting at `i` ends.
fn scan_word_end(s: &Vec<char>, i: usize) -> (e: usize)
    requires
        i <= s.len(),
    ensures
        e == word_end(s@, i as int),
{
    let mut j = i;
    while j < s.len() && text::is_ascii_alphanumeric(s[j])
        invariant
            i <= j <= s.len(),
            word_end(s@, i as int) == word_end(s@, j as int),
        decreases s.len() - j,
    {
        j += 1;
    }
    j
}

/// Whether `syms` and `raws` hold, position by position, the symbols and raw
/// values of `es`.
spec fn holds_table(syms: Seq<Vec<char>>, raws: Seq<Vec<char>>, es: Seq<EntryModel>) -> bool {
    &&& syms.len() == es.len()
    &&& raws.len() == es.len()
    &&& forall|k: int| 0 <= k < es.len() ==> (#[trigger] syms[k])@ == es[k].symbol
    &&& forall|k: int| 0 <= k < es.len() ==> (#[trigger] raws[k])@ == es[k].raw
}

/// One word restored with the table that `syms` and `raws` hold.
fn restore_one(
    w: &Vec<char>,
    syms: &Vec<Vec<char>>,
    raws: &Vec<Vec<char>>,
    Ghost(es): Ghost<Seq<EntryModel>>,
) -> (r: Vec<char>)
    requires
        holds_table(syms@, raws@, es),
    ensures
        r@ == restore_word(w@, es),
{
    proof {
        lemma_symbol_position(es, w@);
    }
    for k in 0..syms.len()
        invariant
            holds_table(syms@, raws@, es),
            forall|j: int| 0 <= j < k ==> (#[trigger] es[j]).symbol != w@,
    {
        assert(syms@[k as int]@ == es[k as int].symbol);
        assert(raws@[k as int]@ == es[k as int].raw);
        if text::chars_equal(&syms[k], w) {
            proof {
                lemma_symbol_position(es, w@);
                if let Some(f) = symbol_position(es, w@) {
                    if f < k {
                        assert(es[f].symbol != w@);
                    }
                }
            }
            let raw = &raws[k];
            let r = text::copy_range(raw, 0, raw.len());
            assert(r@ =~= raw@);
            return r;
        }
    }
    let r = text::copy_range(w, 0, w.len());
    assert(r@ =~= w@);
    r
}

/// Restores every word of `s` that is a symbol of `entries`.
pub(crate) fn restore_text(s: &Vec<char>, entries: &Vec<SymbolEntry>) -> (out: Vec<char>)
    ensures
        out@ == restore(s@, entry_models(entries@)),
{
    let ghost es = entry_models(entries@);
    let mut syms: Vec<Vec<char>> = Vec::new();
    let mut raws: Vec<Vec<char>> = Vec::new();
    let mut k: usize = 0;
    while k < entries.len()
        invariant
            k <= entries.len(),
            es == entry_models(entries@),
            syms.len() == k,
            raws.len() == k,
            forall|j: int| 0 <= j < k ==> (#[trigger] syms@[j])@ == es[j].symbol,
            forall|j: int| 0 <= j < k ==> (#[trigger] raws@[j])@ == es[j].raw,
        decreases entries.len() - k,
    {
        assert(es[k as int] == entries@[k as int]@);
        let sym = text::chars_of(entries[k].symbol.as_str());
        let raw = text::chars_of(entries[k].raw.as_str());
        assert(sym@ == es[k as int].symbol && raw@ == es[k as int].raw);
        let ghost syms0 = syms@;
        let ghost raws0 = raws@;
        syms.push(sym);
        raws.push(raw);
        assert forall|j: int| 0 <= j < k + 1 implies (#[trigger] syms@[j])@ == es[j].symbol by {
            if j < k {
                assert(syms@[j] == syms0[j]);
            }
        }
        assert forall|j: int| 0 <= j < k + 1 implies (#[trigger] raws@[j])@ == es[j].raw by {
            if j < k {
                assert(raws@[j] == raws0[j]);
            }
        }
        k += 1;
    }
    assert(holds_table(syms@, raws@, es));
    let ghost total = restore(s@, es);
    let mut out: Vec<char> = Vec::new();
    let mut cursor: usize = 0;
    assert(total =~= out@ + restore_from(s@, 0, es));
    while cursor < s.len()
        invariant
            cursor <= s.len(),
            holds_table(syms@, raws@, es),
            total == out@ + restore_from(s@, cursor as int, es),
        decreases s.len() - cursor,
    {
        let c = s[cursor];
        if !text::is_ascii_alphanumeric(c) {
            out.push(c);
            cursor += 1;
            assert(total =~= out@ + restore_from(s@, cursor as int, es));
        } else {
            let e = scan_word_end(s, cursor);
            proof {
                lemma_word_end(s@, cursor as int);
            }
            let w = text::copy_range(s, cursor, e);
            let piece = restore_one(&w, &syms, &raws, Ghost(es));
            text::append_chars(&mut out, &piece);
            cursor = e;
            assert(total =~= out@ + restore_from(s@, cursor as int, es));
        }
    }
    assert(out@ + restore_from(s@, cursor as int, es) =~= out@);
    out
}

/// Rehydrates a symbolic response with the entries of the case's vault: refused when
/// the response is blank, otherwise every word of it that is a symbol of the vault
/// is replaced by its raw value.
pub fn rehydrate(request: &RehydrateRequest) -> (r: Result<String, RehydrateError>)
    ensures
        r is Err <==> text::trim(request.projection_response@).len() == 0,
        r matches Err(e) ==> e == RehydrateError::EmptyInput,
        r matches Ok(out) ==> out@ == restore(
            request.projection_response@,
            entry_models(request.vault.entries@),
        ),
{
    let response = text::chars_of(request.projection_response.as_str());
    if text::is_blank(&response) {
        return Err(RehydrateError::EmptyInput);
    }
    let restored = restore_text(&response, &request.vault.entries);
    Ok(text::string_of(&restored))
}

// ---------------------------------------------------------------------------
// The round trip
// ---------------------------------------------------------------------------

/// Text that is white space throughout is given back unchanged.
proof fn lemma_restore_blank(s: Seq<char>, i: int, es: Seq<EntryModel>)
    requires
        0 <= i <= s.len(),
        forall|j: int| 0 <= j < s.len() ==> text::is_ws(#[trigger] s[j]),
    ensures
        restore_from(s, i, es) == s.skip(i),
    decreases s.len() - i,
{
    if i < s.len() {
        assert(text::is_ws(s[i]));
        lemma_restore_blank(s, i + 1, es);
        assert(s.skip(i) =~= seq![s[i]] + s.skip(i + 1));
    } else {
        assert(s.skip(i) =~= Seq::<char>::empty());
    }
}

/// Law (round trip): whenever `symbolize` accepts a document, rehydrating its
/// sanitized text with its symbol entries is not refused, and gives back exactly
/// the document's contents.
pub proof fn lemma_rehydrate_round_trip(contents: Seq<char>)
    requires
        text::trim(contents).len() > 0,
        accepted(contents),
    ensures
        text::trim(symbolized(contents).0).len() > 0,
        restore(symbolized(contents).0, symbolized(contents).1) == contents,
{
    let s = symbolized(contents).0;
    if text::trim(s).len() == 0 {
        text::lemma_blank_is_ws(s);
        lemma_restore_blank(s, 0, symbolized(contents).1);
        assert(s.skip(0) =~= s);
    }
}

} // verus!
