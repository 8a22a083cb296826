//! Replacing sensitive values with typed symbols.
//!
//! A document is sanitized line by line. Each line goes through a fixed sequence
//! of passes (customer name, URLs, resource ids, e-mail addresses, labeled user
//! names, hosts, IPv4 addresses, labeled tenant and subscription ids, other UUIDs);
//! every pass threads the symbol table through, so the same raw value of the same
//! kind always gets the same symbol, and new values of a kind are numbered in the
//! order they are first met. A result is handed out only when it is safe (nothing
//! detectable and no raw value left) and rehydrates exactly to the input.
use vstd::prelude::*;

use crate::detect;
use crate::ingest::CaseDocument;
use crate::rehydrate;
use crate::text;

verus! {

// ---------------------------------------------------------------------------
// Kinds and entries
// ---------------------------------------------------------------------------

#[derive(Debug, Clone, Copy, PartialEq, Eq, Structural)]
pub enum EntityKind {
    CustomerName,
    TenantId,
    SubscriptionId,
    EmailAddress,
    Username,
    Hostname,
    IpAddress,
    ResourceId,
    CustomerUrl,
    InternalIdentifier,
}

pub open spec fn kind_prefix(k: EntityKind) -> Seq<char> {
    match k {
        EntityKind::CustomerName => seq!['C'],
        EntityKind::TenantId => seq!['T'],
        EntityKind::SubscriptionId => seq!['S'],
        EntityKind::EmailAddress => seq!['E'],
        EntityKind::Username => seq!['U'],
        EntityKind::Hostname => seq!['H'],
        EntityKind::IpAddress => seq!['I', 'P'],
        EntityKind::ResourceId => seq!['R'],
        EntityKind::CustomerUrl => seq!['U', 'R', 'L'],
        EntityKind::InternalIdentifier => seq!['I', 'D'],
    }
}

pub open spec fn kind_summary_key(k: EntityKind) -> Seq<char> {
    match k {
        EntityKind::CustomerName => "customer_name"@,
        EntityKind::TenantId => "tenant_id"@,
        EntityKind::SubscriptionId => "subscription_id"@,
        EntityKind::EmailAddress => "email_address"@,
        EntityKind::Username => "username"@,
        EntityKind::Hostname => "hostname"@,
        EntityKind::IpAddress => "ip_address"@,
        EntityKind::ResourceId => "resource_id"@,
        EntityKind::CustomerUrl => "customer_url"@,
        EntityKind::InternalIdentifier => "internal_identifier"@,
    }
}

impl EntityKind {
    /// The letters every symbol of this kind starts with.
    pub fn prefix(self) -> (r: &'static str)
        ensures
            r@ == kind_prefix(self),
    {
        match self {
            EntityKind::CustomerName => {
                proof {
                    reveal_strlit("C");
                }
                "C"
            },
            EntityKind::TenantId => {
                proof {
                    reveal_strlit("T");
                }
                "T"
            },
            EntityKind::SubscriptionId => {
                proof {
                    reveal_strlit("S");
                }
                "S"
            },
            EntityKind::EmailAddress => {
                proof {
                    reveal_strlit("E");
                }
                "E"
            },
            EntityKind::Username => {
                proof {
                    reveal_strlit("U");
                }
                "U"
            },
            EntityKind::Hostname => {
                proof {
                    reveal_strlit("H");
                }
                "H"
            },
            EntityKind::IpAddress => {
                proof {
                    reveal_strlit("IP");
                }
                "IP"
            },
            EntityKind::ResourceId => {
                proof {
                    reveal_strlit("R");
                }
                "R"
            },
            EntityKind::CustomerUrl => {
                proof {
                    reveal_strlit("URL");
                }
                "URL"
            },
            EntityKind::InternalIdentifier => {
                proof {
                    reveal_strlit("ID");
                }
                "ID"
            },
        }
    }

    /// The key this kind is counted under in a projection's summary.
    pub fn summary_key(self) -> (r: &'static str)
        ensures
            r@ == kind_summary_key(self),
    {
        match self {
            EntityKind::CustomerName => "customer_name",
            EntityKind::TenantId => "tenant_id",
            EntityKind::SubscriptionId => "subscription_id",
            EntityKind::EmailAddress => "email_address",
            EntityKind::Username => "username",
            EntityKind::Hostname => "hostname",
            EntityKind::IpAddress => "ip_address",
            EntityKind::ResourceId => "resource_id",
            EntityKind::CustomerUrl => "customer_url",
            EntityKind::InternalIdentifier => "internal_identifier",
        }
    }
}

/// What an entry of the symbol table means: a raw value of some kind and its symbol.
pub struct EntryModel {
    pub kind: EntityKind,
    pub symbol: Seq<char>,
    pub raw: Seq<char>,
}

#[derive(Debug, Clone, PartialEq, Eq)]
pub struct SymbolEntry {
    pub kind: EntityKind,
    pub symbol: String,
    pub raw: String,
}

impl View for SymbolEntry {
    type V = EntryModel;

    open spec fn view(&self) -> EntryModel {
        EntryModel { kind: self.kind, symbol: self.symbol@, raw: self.raw@ }
    }
}

pub open spec fn entry_models(v: Seq<SymbolEntry>) -> Seq<EntryModel> {
    v.map_values(|e: SymbolEntry| e@)
}

/// An entry of the symbol table while a document is being sanitized.
struct WorkEntry {
    kind: EntityKind,
    symbol: Vec<char>,
    raw: Vec<char>,
}

impl View for WorkEntry {
    type V = EntryModel;

    closed spec fn view(&self) -> EntryModel {
        EntryModel { kind: self.kind, symbol: self.symbol@, raw: self.raw@ }
    }
}

spec fn work_models(v: Seq<WorkEntry>) -> Seq<EntryModel> {
    v.map_values(|e: WorkEntry| e@)
}

#[derive(Debug, Clone, PartialEq, Eq)]
pub struct SymbolizedCase {
    pub source_name: String,
    pub sanitized_contents: String,
    pub entries: Vec<SymbolEntry>,
    pub line_count: usize,
}

#[derive(Debug, Clone, PartialEq, Eq)]
pub enum SymbolizeError {
    /// A detectable value or a symbolized raw value was still present after every
    /// pass.
    UnsanitizedContent,
    /// Rehydrating the sanitized text with its symbol table would not give the input
    /// back: the input already held a word equal to a symbol handed out.
    UnrestorableContent,
}

impl SymbolizeError {
    /// The message this error is reported with.
    pub fn message(&self) -> (s: &'static str)
        ensures
            s@ == match self {
                SymbolizeError::UnsanitizedContent =>
                    "detectable sensitive content remained after symbolization"@,
                SymbolizeError::UnrestorableContent =>
                    "symbolized output would not rehydrate to the original input"@,
            },
    {
        match self {
            SymbolizeError::UnsanitizedContent =>
                "detectable sensitive content remained after symbolization",
            SymbolizeError::UnrestorableContent =>
                "symbolized output would not rehydrate to the original input",
        }
    }
}

// ---------------------------------------------------------------------------
// The symbol table
// ---------------------------------------------------------------------------

/// How many entries of kind `k` the table holds.
pub open spec fn count_kind(es: Seq<EntryModel>, k: EntityKind) -> nat
    decreases es.len(),
{
    if es.len() == 0 {
        0
    } else {
        count_kind(es.drop_last(), k) + if es.last().kind == k {
            1nat
        } else {
            0nat
        }
    }
}

pub open spec fn entry_is(e: EntryModel, k: EntityKind, raw: Seq<char>) -> bool {
    e.kind == k && e.raw == raw
}

/// The position of the first entry for `raw` of kind `k`.
pub open spec fn find_entry(es: Seq<EntryModel>, k: EntityKind, raw: Seq<char>) -> Option<int>
    decreases es.len(),
{
    if es.len() == 0 {
        None
    } else {
        match find_entry(es.drop_last(), k, raw) {
            Some(i) => Some(i),
            None => if entry_is(es.last(), k, raw) {
                Some(es.len() - 1)
            } else {
                None
            },
        }
    }
}

/// The symbol a new value of kind `k` gets: the kind's prefix and one more than the
/// number of values of that kind already in the table.
pub open spec fn new_symbol(es: Seq<EntryModel>, k: EntityKind) -> Seq<char> {
    kind_prefix(k) + text::decimal(count_kind(es, k) + 1)
}

/// The symbol for `raw` of kind `k`, and the table afterwards: an existing entry's
/// symbol is reused; otherwise a new entry is appended.
pub open spec fn assign_symbol(es: Seq<EntryModel>, k: EntityKind, raw: Seq<char>) -> (
    Seq<char>,
    Seq<EntryModel>,
) {
    match find_entry(es, k, raw) {
        Some(i) => (es[i].symbol, es),
        None => (
            new_symbol(es, k),
            es.push(EntryModel { kind: k, symbol: new_symbol(es, k), raw: raw }),
        ),
    }
}

/// Whether the detector for kind `k` accepts `raw` as a value of that kind.
pub open spec fn kind_accepts(k: EntityKind, raw: Seq<char>) -> bool {
    match k {
        EntityKind::CustomerName => text::trim(raw).len() > 0,
        EntityKind::TenantId => detect::looks_like_uuid(raw),
        EntityKind::SubscriptionId => detect::looks_like_uuid(raw),
        EntityKind::EmailAddress => detect::looks_like_email(raw),
        EntityKind::Username => detect::looks_like_username(raw),
        EntityKind::Hostname => detect::looks_like_hostname(raw),
        EntityKind::IpAddress => detect::looks_like_ipv4(raw),
        EntityKind::ResourceId => detect::looks_like_resource_id(raw),
        EntityKind::CustomerUrl => detect::looks_like_url(raw),
        EntityKind::InternalIdentifier => detect::looks_like_uuid(raw),
    }
}

/// The numbering invariant of a symbol table: one entry per raw value and kind, and
/// the entries of a kind numbered 1, 2, 3, ... in the order they were added.
pub open spec fn table_wf(es: Seq<EntryModel>) -> bool {
    &&& forall|i: int, j: int|
        0 <= i < j < es.len() ==> !entry_is(#[trigger] es[i], es[j].kind, #[trigger] es[j].raw)
    &&& forall|i: int| 0 <= i < es.len() ==> (#[trigger] es[i]).symbol == new_symbol(es.take(i), es[i].kind)
}

/// The invariant of the tables this library builds: numbered as `table_wf` says, and
/// every raw value one that the detector of its kind accepts.
pub open spec fn entries_wf(es: Seq<EntryModel>) -> bool {
    &&& table_wf(es)
    &&& forall|i: int| 0 <= i < es.len() ==> kind_accepts((#[trigger] es[i]).kind, es[i].raw)
}

pub proof fn lemma_find_entry(es: Seq<EntryModel>, k: EntityKind, raw: Seq<char>)
    ensures
        find_entry(es, k, raw) is None <==> forall|j: int|
            0 <= j < es.len() ==> !entry_is(#[trigger] es[j], k, raw),
        find_entry(es, k, raw) matches Some(i) ==> {
            &&& 0 <= i < es.len()
            &&& entry_is(es[i], k, raw)
            &&& forall|j: int| 0 <= j < i ==> !entry_is(#[trigger] es[j], k, raw)
        },
    decreases es.len(),
{
    if es.len() > 0 {
        let pre = es.drop_last();
        lemma_find_entry(pre, k, raw);
        assert forall|j: int| 0 <= j < pre.len() implies pre[j] == es[j] by {}
    }
}

proof fn lemma_first_match(es: Seq<EntryModel>, k: EntityKind, raw: Seq<char>, i: int)
    requires
        0 <= i < es.len(),
        entry_is(es[i], k, raw),
        forall|j: int| 0 <= j < i ==> !entry_is(#[trigger] es[j], k, raw),
    ensures
        find_entry(es, k, raw) == Some(i),
{
    lemma_find_entry(es, k, raw);
    if let Some(f) = find_entry(es, k, raw) {
        if f < i {
            assert(!entry_is(es[f], k, raw));
        }
    }
}

/// Adding a value the table lacks keeps the numbering invariant.
proof fn lemma_table_wf_push(es: Seq<EntryModel>, k: EntityKind, raw: Seq<char>)
    requires
        table_wf(es),
        find_entry(es, k, raw) is None,
    ensures
        table_wf(es.push(EntryModel { kind: k, symbol: new_symbol(es, k), raw: raw })),
{
    lemma_find_entry(es, k, raw);
    let e = EntryModel { kind: k, symbol: new_symbol(es, k), raw: raw };
    let es2 = es.push(e);
    assert forall|i: int| 0 <= i < es2.len() implies (#[trigger] es2[i]).symbol == new_symbol(
        es2.take(i),
        es2[i].kind,
    ) by {
        if i < es.len() {
            assert(es2.take(i) =~= es.take(i));
        } else {
            assert(es2.take(i) =~= es);
        }
    }
    assert forall|i: int, j: int| 0 <= i < j < es2.len() implies !entry_is(
        #[trigger] es2[i],
        es2[j].kind,
        #[trigger] es2[j].raw,
    ) by {
        if j == es.len() {
            assert(!entry_is(es[i], k, raw));
        }
    }
}

/// Adding an accepted value the table lacks keeps the table well formed.
proof fn lemma_wf_push(es: Seq<EntryModel>, k: EntityKind, raw: Seq<char>)
    requires
        entries_wf(es),
        find_entry(es, k, raw) is None,
        kind_accepts(k, raw),
    ensures
        entries_wf(es.push(EntryModel { kind: k, symbol: new_symbol(es, k), raw: raw })),
{
    lemma_table_wf_push(es, k, raw);
    let es2 = es.push(EntryModel { kind: k, symbol: new_symbol(es, k), raw: raw });
    assert forall|i: int| 0 <= i < es2.len() implies kind_accepts(
        (#[trigger] es2[i]).kind,
        es2[i].raw,
    ) by {
        if i < es.len() {
            assert(es2[i] == es[i]);
        }
    }
}

/// Law: for any table with the numbering invariant and any value, assigning a symbol
/// keeps the invariant, adds at most one entry, and hands out the symbol of the one
/// entry the table then holds for that value and kind.
pub proof fn lemma_assign_symbol_table(es: Seq<EntryModel>, k: EntityKind, raw: Seq<char>)
    requires
        table_wf(es),
    ensures
        table_wf(assign_symbol(es, k, raw).1),
        assign_symbol(es, k, raw).1 == es || assign_symbol(es, k, raw).1 == es.push(
            EntryModel { kind: k, symbol: assign_symbol(es, k, raw).0, raw: raw },
        ),
        exists|i: int|
            0 <= i < assign_symbol(es, k, raw).1.len() && #[trigger] assign_symbol(
                es,
                k,
                raw,
            ).1[i] == (EntryModel { kind: k, symbol: assign_symbol(es, k, raw).0, raw: raw }),
        forall|j: int|
            0 <= j < assign_symbol(es, k, raw).1.len() && entry_is(
                #[trigger] assign_symbol(es, k, raw).1[j],
                k,
                raw,
            ) ==> assign_symbol(es, k, raw).1[j].symbol == assign_symbol(es, k, raw).0,
{
    lemma_find_entry(es, k, raw);
    let r = assign_symbol(es, k, raw);
    match find_entry(es, k, raw) {
        Some(i) => {
            assert(r.1[i] == (EntryModel { kind: k, symbol: r.0, raw: raw }));
            assert forall|j: int| 0 <= j < r.1.len() && entry_is(#[trigger] r.1[j], k, raw) implies r.1[j].symbol
                == r.0 by {
                if j < i {
                } else if i < j {
                    assert(!entry_is(es[i], es[j].kind, es[j].raw));
                }
            }
        },
        None => {
            lemma_table_wf_push(es, k, raw);
            assert(r.1[es.len() as int] == (EntryModel { kind: k, symbol: r.0, raw: raw }));
            assert forall|j: int| 0 <= j < r.1.len() && entry_is(#[trigger] r.1[j], k, raw) implies r.1[j].symbol
                == r.0 by {
                if j < es.len() {
                    assert(r.1[j] == es[j]);
                }
            }
        },
    }
}

/// Law: assigning a symbol to a value that its kind's detector accepts keeps a
/// well-formed table well formed.
pub proof fn lemma_assign_symbol_wf(es: Seq<EntryModel>, k: EntityKind, raw: Seq<char>)
    requires
        entries_wf(es),
        kind_accepts(k, raw),
    ensures
        entries_wf(assign_symbol(es, k, raw).1),
{
    lemma_find_entry(es, k, raw);
    if find_entry(es, k, raw) is None {
        lemma_wf_push(es, k, raw);
    }
}

/// The symbol for `raw` of kind `kind`: reused when the table already has the value,
/// otherwise the next symbol of that kind, recorded in the table.
fn symbol_for(entries: &mut Vec<WorkEntry>, kind: EntityKind, raw: &Vec<char>) -> (sym: Vec<
    char,
>)
    ensures
        (sym@, work_models(final(entries)@)) == assign_symbol(
            work_models(old(entries)@),
            kind,
            raw@,
        ),
        entries_wf(work_models(old(entries)@)) && kind_accepts(kind, raw@) ==> entries_wf(
            work_models(final(entries)@),
        ),
{
    let ghost es = work_models(entries@);
    proof {
        lemma_find_entry(es, kind, raw@);
    }
    let n = entries.len();
    for i in 0..n
        invariant
            n == entries.len(),
            es == work_models(entries@),
            forall|j: int| 0 <= j < i ==> !entry_is(#[trigger] es[j], kind, raw@),
    {
        assert(es[i as int] == entries@[i as int]@);
        if entries[i].kind == kind && text::chars_equal(&entries[i].raw, raw) {
            assert(entry_is(es[i as int], kind, raw@));
            proof {
                lemma_first_match(es, kind, raw@, i as int);
            }
            let len = entries[i].symbol.len();
            return text::copy_range(&entries[i].symbol, 0, len);
        }
    }
    assert(find_entry(es, kind, raw@) is None);
    let mut count: usize = 0;
    for i in 0..n
        invariant
            n == entries.len(),
            es == work_models(entries@),
            count <= i,
            count == count_kind(es.take(i as int), kind),
    {
        assert(es.take(i + 1).drop_last() =~= es.take(i as int));
        assert(es[i as int] == entries@[i as int]@);
        if entries[i].kind == kind {
            count += 1;
        }
    }
    assert(es.take(n as int) =~= es);
    let mut sym = text::chars_of(kind.prefix());
    text::push_decimal(&mut sym, count as u128 + 1);
    let symbol = text::copy_range(&sym, 0, sym.len());
    let stored_raw = text::copy_range(raw, 0, raw.len());
    assert(symbol@ =~= sym@);
    assert(stored_raw@ =~= raw@);
    let entry = WorkEntry { kind, symbol, raw: stored_raw };
    let ghost new_model = EntryModel { kind: kind, symbol: new_symbol(es, kind), raw: raw@ };
    assert(sym@ =~= new_symbol(es, kind));
    assert(entry@ == new_model);
    let ghost before = entries@;
    entries.push(entry);
    proof {
        assert(work_models(entries@) =~= work_models(before).push(new_model));
        if entries_wf(es) && kind_accepts(kind, raw@) {
            lemma_wf_push(es, kind, raw@);
        }
    }
    sym
}

// ---------------------------------------------------------------------------
// Laws of the symbol table
// ---------------------------------------------------------------------------

pub open spec fn all_alpha(s: Seq<char>) -> bool {
    forall|i: int| 0 <= i < s.len() ==> text::is_alpha(#[trigger] s[i])
}

pub open spec fn all_digits(s: Seq<char>) -> bool {
    forall|i: int| 0 <= i < s.len() ==> text::is_digit(#[trigger] s[i])
}

proof fn lemma_prefix_letters(k: EntityKind)
    ensures
        kind_prefix(k).len() >= 1,
        all_alpha(kind_prefix(k)),
{
}

proof fn lemma_prefix_injective(k1: EntityKind, k2: EntityKind)
    requires
        kind_prefix(k1) == kind_prefix(k2),
    ensures
        k1 == k2,
{
    let p1 = kind_prefix(k1);
    let p2 = kind_prefix(k2);
    assert(p1.len() == p2.len());
    assert(p1[0] == p2[0]);
    if p1.len() > 1 {
        assert(p1[1] == p2[1]);
    }
}

proof fn lemma_decimal_digits(n: nat)
    ensures
        text::decimal(n).len() >= 1,
        all_digits(text::decimal(n)),
        n >= 10 ==> text::decimal(n).len() >= 2,
    decreases n,
{
    if n >= 10 {
        lemma_decimal_digits(n / 10);
    }
}

proof fn lemma_digit_char_injective(a: nat, b: nat)
    requires
        a < 10,
        b < 10,
        text::digit_char(a) == text::digit_char(b),
    ensures
        a == b,
{
}

proof fn lemma_decimal_injective(a: nat, b: nat)
    requires
        text::decimal(a) == text::decimal(b),
    ensures
        a == b,
    decreases a,
{
    lemma_decimal_digits(a);
    lemma_decimal_digits(b);
    if a < 10 && b < 10 {
        assert(text::decimal(a) == seq![text::digit_char(a)]);
        assert(text::decimal(b) == seq![text::digit_char(b)]);
        assert(text::decimal(a)[0] == text::decimal(b)[0]);
        assert(seq![text::digit_char(a)][0] == text::digit_char(a));
        assert(seq![text::digit_char(b)][0] == text::digit_char(b));
        lemma_digit_char_injective(a, b);
    } else if a >= 10 && b >= 10 {
        let da = text::decimal(a);
        let db = text::decimal(b);
        assert(da.last() == db.last());
        lemma_digit_char_injective(a % 10, b % 10);
        assert(da.drop_last() =~= text::decimal(a / 10));
        assert(db.drop_last() =~= text::decimal(b / 10));
        lemma_decimal_injective(a / 10, b / 10);
    }
}

/// Splitting a run of letters followed by a run of digits is unambiguous.
proof fn lemma_letters_then_digits(p1: Seq<char>, d1: Seq<char>, p2: Seq<char>, d2: Seq<char>)
    requires
        all_alpha(p1),
        all_alpha(p2),
        all_digits(d1),
        all_digits(d2),
        d1.len() >= 1,
        d2.len() >= 1,
        p1 + d1 == p2 + d2,
    ensures
        p1 == p2,
        d1 == d2,
{
    let s = p1 + d1;
    if p1.len() < p2.len() {
        assert(s[p1.len() as int] == d1[0]);
        assert(s[p1.len() as int] == p2[p1.len() as int]);
    } else if p2.len() < p1.len() {
        assert(s[p2.len() as int] == d2[0]);
        assert(s[p2.len() as int] == p1[p2.len() as int]);
    }
    assert(p1 =~= s.take(p1.len() as int));
    assert(p2 =~= s.take(p2.len() as int));
    assert(d1 =~= s.skip(p1.len() as int));
    assert(d2 =~= s.skip(p2.len() as int));
}

proof fn lemma_count_kind_step(es: Seq<EntryModel>, i: int, k: EntityKind)
    requires
        0 <= i < es.len(),
    ensures
        count_kind(es.take(i + 1), k) == count_kind(es.take(i), k) + if es[i].kind == k {
            1nat
        } else {
            0nat
        },
{
    assert(es.take(i + 1).drop_last() =~= es.take(i));
}

proof fn lemma_count_kind_monotone(es: Seq<EntryModel>, m: int, n: int, k: EntityKind)
    requires
        0 <= m <= n <= es.len(),
    ensures
        count_kind(es.take(m), k) <= count_kind(es.take(n), k),
    decreases n - m,
{
    if m < n {
        lemma_count_kind_monotone(es, m, n - 1, k);
        lemma_count_kind_step(es, n - 1, k);
    }
}

/// Law: in a well-formed table no two entries share a symbol, so a symbol names
/// exactly one raw value.
pub proof fn lemma_symbols_distinct(es: Seq<EntryModel>)
    requires
        entries_wf(es),
    ensures
        forall|i: int, j: int|
            0 <= i < j < es.len() ==> (#[trigger] es[i]).symbol != (#[trigger] es[j]).symbol,
{
    assert forall|i: int, j: int| 0 <= i < j < es.len() implies (#[trigger] es[i]).symbol != (
    #[trigger] es[j]).symbol by {
        let ki = es[i].kind;
        let kj = es[j].kind;
        let ni = count_kind(es.take(i), ki) + 1;
        let nj = count_kind(es.take(j), kj) + 1;
        assert(es[i].symbol == new_symbol(es.take(i), ki));
        assert(es[j].symbol == new_symbol(es.take(j), kj));
        if es[i].symbol == es[j].symbol {
            lemma_prefix_letters(ki);
            lemma_prefix_letters(kj);
            lemma_decimal_digits(ni);
            lemma_decimal_digits(nj);
            lemma_letters_then_digits(
                kind_prefix(ki),
                text::decimal(ni),
                kind_prefix(kj),
                text::decimal(nj),
            );
            lemma_prefix_injective(ki, kj);
            lemma_decimal_injective(ni, nj);
            lemma_count_kind_step(es, i, ki);
            lemma_count_kind_monotone(es, i + 1, j, ki);
            assert(false);
        }
    }
}

/// The number of entries of each kind, added up over all kinds.
pub open spec fn count_all_kinds(es: Seq<EntryModel>) -> nat {
    count_kind(es, EntityKind::CustomerName) + count_kind(es, EntityKind::TenantId) + count_kind(
        es,
        EntityKind::SubscriptionId,
    ) + count_kind(es, EntityKind::EmailAddress) + count_kind(es, EntityKind::Username)
        + count_kind(es, EntityKind::Hostname) + count_kind(es, EntityKind::IpAddress)
        + count_kind(es, EntityKind::ResourceId) + count_kind(es, EntityKind::CustomerUrl)
        + count_kind(es, EntityKind::InternalIdentifier)
}

/// Law: the counts by kind add up to the number of symbols.
pub proof fn lemma_kind_counts_sum(es: Seq<EntryModel>)
    ensures
        count_all_kinds(es) == es.len(),
    decreases es.len(),
{
    if es.len() > 0 {
        lemma_kind_counts_sum(es.drop_last());
    }
}

// ---------------------------------------------------------------------------
// Replacing one token
// ---------------------------------------------------------------------------

/// Whether `s` is the symbol of some entry of the table.
pub open spec fn is_symbol_of(es: Seq<EntryModel>, s: Seq<char>) -> bool {
    exists|i: int| 0 <= i < es.len() && (#[trigger] es[i]).symbol == s
}

fn is_known_symbol(entries: &Vec<WorkEntry>, candidate: &Vec<char>) -> (b: bool)
    ensures
        b == is_symbol_of(work_models(entries@), candidate@),
{
    let ghost es = work_models(entries@);
    for i in 0..entries.len()
        invariant
            es == work_models(entries@),
            forall|j: int| 0 <= j < i ==> (#[trigger] es[j]).symbol != candidate@,
    {
        assert(es[i as int] == entries@[i as int]@);
        if text::chars_equal(&entries[i].symbol, candidate) {
            return true;
        }
    }
    false
}

/// A token with its core replaced by the core's symbol, when the detector for `kind`
/// accepts the core and the core is not already a symbol of the table; the wrapping
/// punctuation stays.
pub open spec fn replace_core(tok: Seq<char>, es: Seq<EntryModel>, kind: EntityKind) -> (
    Seq<char>,
    Seq<EntryModel>,
) {
    let core = detect::token_core(tok);
    if kind_accepts(kind, core) && !is_symbol_of(es, core) {
        let a = assign_symbol(es, kind, core);
        (tok.take(detect::core_start(tok)) + a.0 + tok.skip(detect::core_end(tok)), a.1)
    } else {
        (tok, es)
    }
}

fn accepts(kind: EntityKind, candidate: &Vec<char>) -> (b: bool)
    ensures
        b == kind_accepts(kind, candidate@),
{
    match kind {
        EntityKind::CustomerName => !text::is_blank(candidate),
        EntityKind::TenantId => detect::looks_like_uuid_exec(candidate),
        EntityKind::SubscriptionId => detect::looks_like_uuid_exec(candidate),
        EntityKind::EmailAddress => detect::looks_like_email_exec(candidate),
        EntityKind::Username => detect::looks_like_username_exec(candidate),
        EntityKind::Hostname => detect::looks_like_hostname_exec(candidate),
        EntityKind::IpAddress => detect::looks_like_ipv4_exec(candidate),
        EntityKind::ResourceId => detect::looks_like_resource(candidate),
        EntityKind::CustomerUrl => detect::looks_like_url_exec(candidate),
        EntityKind::InternalIdentifier => detect::looks_like_uuid_exec(candidate),
    }
}

fn replace_token(token: &Vec<char>, entries: &mut Vec<WorkEntry>, kind: EntityKind) -> (out: Vec<
    char,
>)
    requires
        entries_wf(work_models(old(entries)@)),
    ensures
        (out@, work_models(final(entries)@)) == replace_core(
            token@,
            work_models(old(entries)@),
            kind,
        ),
        entries_wf(work_models(final(entries)@)),
{
    let (p, e) = detect::split_token_affixes(token);
    let core = text::copy_range(token, p, e);
    if accepts(kind, &core) && !is_known_symbol(entries, &core) {
        let sym = symbol_for(entries, kind, &core);
        let mut out = text::copy_range(token, 0, p);
        text::append_chars(&mut out, &sym);
        text::append_range(&mut out, token, e, token.len());
        assert(token@.subrange(0, p as int) =~= token@.take(p as int));
        assert(token@.subrange(e as int, token.len() as int) =~= token@.skip(e as int));
        out
    } else {
        text::copy_range(token, 0, token.len())
    }
}


// ---------------------------------------------------------------------------
// Passes over a line
// ---------------------------------------------------------------------------

/// Every white-space separated token from position `i` on, with the core replaced
/// wherever the detector for `kind` accepts it; white space is copied.
pub open spec fn token_pass(line: Seq<char>, i: int, es: Seq<EntryModel>, kind: EntityKind) -> (
    Seq<char>,
    Seq<EntryModel>,
)
    decreases line.len() - i,
{
    if i < 0 || i >= line.len() {
        (seq![], es)
    } else if text::is_ws(line[i]) {
        let r = token_pass(line, i + 1, es, kind);
        (seq![line[i]] + r.0, r.1)
    } else {
        let end = detect::token_end(line, i);
        proof {
            detect::lemma_token_end(line, i);
        }
        let t = replace_core(line.subrange(i, end), es, kind);
        let r = token_pass(line, end, t.1, kind);
        (t.0 + r.0, r.1)
    }
}

fn replace_token_matches(line: &Vec<char>, entries: &mut Vec<WorkEntry>, kind: EntityKind) -> (out:
    Vec<char>)
    requires
        entries_wf(work_models(old(entries)@)),
    ensures
        (out@, work_models(final(entries)@)) == token_pass(
            line@,
            0,
            work_models(old(entries)@),
            kind,
        ),
        entries_wf(work_models(final(entries)@)),
{
    let ghost total = token_pass(line@, 0, work_models(entries@), kind);
    let mut out: Vec<char> = Vec::new();
    let mut cursor: usize = 0;
    assert(total.0 =~= out@ + token_pass(line@, 0, work_models(entries@), kind).0);
    while cursor < line.len()
        invariant
            cursor <= line.len(),
            entries_wf(work_models(entries@)),
            total.0 == out@ + token_pass(line@, cursor as int, work_models(entries@), kind).0,
            total.1 == token_pass(line@, cursor as int, work_models(entries@), kind).1,
        decreases line.len() - cursor,
    {
        let ghost es = work_models(entries@);
        let ghost rest = token_pass(line@, cursor as int, es, kind);
        let c = line[cursor];
        if text::is_whitespace(c) {
            out.push(c);
            cursor += 1;
            assert(rest.0 =~= seq![c] + token_pass(line@, cursor as int, es, kind).0);
            assert(total.0 =~= out@ + token_pass(line@, cursor as int, es, kind).0);
        } else {
            let end = detect::scan_token_end(line, cursor);
            proof {
                detect::lemma_token_end(line@, cursor as int);
            }
            let token = text::copy_range(line, cursor, end);
            let piece = replace_token(&token, entries, kind);
            let ghost es1 = work_models(entries@);
            text::append_chars(&mut out, &piece);
            cursor = end;
            assert(rest.0 =~= piece@ + token_pass(line@, cursor as int, es1, kind).0);
            assert(total.0 =~= out@ + token_pass(line@, cursor as int, es1, kind).0);
        }
    }
    assert(out@ + seq![] =~= out@);
    out
}

/// From position `cursor` on: each occurrence of `marker` and the token after it
/// (after any white space, when `skip` holds), with the token's core replaced
/// wherever the detector for `kind` accepts it; all other text is copied.
pub open spec fn labeled_pass(
    line: Seq<char>,
    cursor: int,
    es: Seq<EntryModel>,
    marker: Seq<char>,
    skip: bool,
    kind: EntityKind,
) -> (Seq<char>, Seq<EntryModel>)
    decreases line.len() - cursor,
{
    if cursor < 0 || cursor > line.len() || marker.len() == 0 {
        (seq![], es)
    } else {
        match text::find_from(line, marker, cursor) {
            None => (line.skip(cursor), es),
            Some(m) => {
                proof {
                    text::lemma_find_from_bounds(line, marker, cursor);
                }
                let ts0 = m + marker.len();
                let ts = if skip {
                    detect::skip_ws(line, ts0)
                } else {
                    ts0
                };
                proof {
                    detect::lemma_skip_ws(line, ts0);
                }
                let te = detect::token_end(line, ts);
                proof {
                    detect::lemma_token_end(line, ts);
                }
                let t = replace_core(line.subrange(ts, te), es, kind);
                let r = labeled_pass(line, te, t.1, marker, skip, kind);
                (line.subrange(cursor, ts) + t.0 + r.0, r.1)
            },
        }
    }
}

fn replace_after_marker(
    line: &Vec<char>,
    marker: &Vec<char>,
    skip: bool,
    kind: EntityKind,
    entries: &mut Vec<WorkEntry>,
) -> (out: Vec<char>)
    requires
        marker.len() > 0,
        entries_wf(work_models(old(entries)@)),
    ensures
        (out@, work_models(final(entries)@)) == labeled_pass(
            line@,
            0,
            work_models(old(entries)@),
            marker@,
            skip,
            kind,
        ),
        entries_wf(work_models(final(entries)@)),
{
    let ghost total = labeled_pass(line@, 0, work_models(entries@), marker@, skip, kind);
    let mut out: Vec<char> = Vec::new();
    let mut cursor: usize = 0;
    assert(total.0 =~= out@ + labeled_pass(
        line@,
        0,
        work_models(entries@),
        marker@,
        skip,
        kind,
    ).0);
    loop
        invariant
            cursor <= line.len(),
            marker.len() > 0,
            total == labeled_pass(line@, 0, work_models(old(entries)@), marker@, skip, kind),
            entries_wf(work_models(entries@)),
            total.0 == out@ + labeled_pass(
                line@,
                cursor as int,
                work_models(entries@),
                marker@,
                skip,
                kind,
            ).0,
            total.1 == labeled_pass(line@, cursor as int, work_models(entries@), marker@, skip, kind).1,
        decreases line.len() - cursor,
    {
        let ghost es = work_models(entries@);
        let ghost rest = labeled_pass(line@, cursor as int, es, marker@, skip, kind);
        match text::find_chars_from(line, marker, cursor) {
            None => {
                assert(rest == (line@.skip(cursor as int), es));
                text::append_range(&mut out, line, cursor, line.len());
                assert(line@.subrange(cursor as int, line.len() as int) =~= line@.skip(
                    cursor as int,
                ));
                assert(out@ =~= total.0);
                return out;
            },
            Some(m) => {
                proof {
                    text::lemma_find_from_bounds(line@, marker@, cursor as int);
                }
                let ts0 = m + marker.len();
                let ts = if skip {
                    detect::skip_spaces(line, ts0)
                } else {
                    ts0
                };
                let te = detect::scan_token_end(line, ts);
                text::append_range(&mut out, line, cursor, ts);
                let token = text::copy_range(line, ts, te);
                let piece = replace_token(&token, entries, kind);
                let ghost es1 = work_models(entries@);
                text::append_chars(&mut out, &piece);
                let ghost old_cursor = cursor;
                cursor = te;
                assert(rest.0 =~= line@.subrange(old_cursor as int, ts as int) + piece@
                    + labeled_pass(line@, cursor as int, es1, marker@, skip, kind).0);
                assert(total.0 =~= out@ + labeled_pass(
                    line@,
                    cursor as int,
                    es1,
                    marker@,
                    skip,
                    kind,
                ).0);
            },
        }
    }
}

/// The customer name between the first `Customer ` and the next ` reported`, when it
/// is not blank and not already a symbol of the table, replaced by its symbol.
pub open spec fn customer_pass(line: Seq<char>, es: Seq<EntryModel>) -> (
    Seq<char>,
    Seq<EntryModel>,
) {
    match text::find_from(line, "Customer "@, 0) {
        None => (line, es),
        Some(p) => {
            let name_start = p + "Customer "@.len();
            match text::find_from(line, " reported"@, name_start) {
                None => (line, es),
                Some(name_end) => {
                    let raw = line.subrange(name_start, name_end);
                    if text::trim(raw).len() == 0 || is_symbol_of(es, raw) {
                        (line, es)
                    } else {
                        let a = assign_symbol(es, EntityKind::CustomerName, raw);
                        (line.take(name_start) + a.0 + line.skip(name_end), a.1)
                    }
                },
            }
        },
    }
}

fn replace_customer_name(line: &Vec<char>, entries: &mut Vec<WorkEntry>) -> (out: Vec<char>)
    requires
        entries_wf(work_models(old(entries)@)),
    ensures
        (out@, work_models(final(entries)@)) == customer_pass(line@, work_models(old(entries)@)),
        entries_wf(work_models(final(entries)@)),
{
    let prefix = text::chars_of("Customer ");
    let suffix = text::chars_of(" reported");
    if let Some(prefix_start) = text::find_chars_from(line, &prefix, 0) {
        proof {
            text::lemma_find_from_bounds(line@, prefix@, 0);
            assert(line.len() == line@.len());
        }
        let name_start = prefix_start + prefix.len();
        if let Some(name_end) = text::find_chars_from(line, &suffix, name_start) {
            proof {
                text::lemma_find_from_bounds(line@, suffix@, name_start as int);
            }
            let raw = text::copy_range(line, name_start, name_end);
            if !text::is_blank(&raw) && !is_known_symbol(entries, &raw) {
                let symbol = symbol_for(entries, EntityKind::CustomerName, &raw);
                let mut out = text::copy_range(line, 0, name_start);
                text::append_chars(&mut out, &symbol);
                text::append_range(&mut out, line, name_end, line.len());
                assert(line@.subrange(0, name_start as int) =~= line@.take(name_start as int));
                assert(line@.subrange(name_end as int, line.len() as int) =~= line@.skip(
                    name_end as int,
                ));
                return out;
            }
        }
    }
    text::copy_range(line, 0, line.len())
}

fn replace_resource_ids(line: &Vec<char>, entries: &mut Vec<WorkEntry>) -> (out: Vec<char>)
    requires
        entries_wf(work_models(old(entries)@)),
    ensures
        (out@, work_models(final(entries)@)) == token_pass(
            line@,
            0,
            work_models(old(entries)@),
            EntityKind::ResourceId,
        ),
        entries_wf(work_models(final(entries)@)),
{
    replace_token_matches(line, entries, EntityKind::ResourceId)
}

fn replace_url_tokens(line: &Vec<char>, entries: &mut Vec<WorkEntry>) -> (out: Vec<char>)
    requires
        entries_wf(work_models(old(entries)@)),
    ensures
        (out@, work_models(final(entries)@)) == token_pass(
            line@,
            0,
            work_models(old(entries)@),
            EntityKind::CustomerUrl,
        ),
        entries_wf(work_models(final(entries)@)),
{
    replace_token_matches(line, entries, EntityKind::CustomerUrl)
}

fn replace_email_tokens(line: &Vec<char>, entries: &mut Vec<WorkEntry>) -> (out: Vec<char>)
    requires
        entries_wf(work_models(old(entries)@)),
    ensures
        (out@, work_models(final(entries)@)) == token_pass(
            line@,
            0,
            work_models(old(entries)@),
            EntityKind::EmailAddress,
        ),
        entries_wf(work_models(final(entries)@)),
{
    replace_token_matches(line, entries, EntityKind::EmailAddress)
}

fn replace_ip_tokens(line: &Vec<char>, entries: &mut Vec<WorkEntry>) -> (out: Vec<char>)
    requires
        entries_wf(work_models(old(entries)@)),
    ensures
        (out@, work_models(final(entries)@)) == token_pass(
            line@,
            0,
            work_models(old(entries)@),
            EntityKind::IpAddress,
        ),
        entries_wf(work_models(final(entries)@)),
{
    replace_token_matches(line, entries, EntityKind::IpAddress)
}

fn replace_generic_uuid_tokens(line: &Vec<char>, entries: &mut Vec<WorkEntry>) -> (out: Vec<char>)
    requires
        entries_wf(work_models(old(entries)@)),
    ensures
        (out@, work_models(final(entries)@)) == token_pass(
            line@,
            0,
            work_models(old(entries)@),
            EntityKind::InternalIdentifier,
        ),
        entries_wf(work_models(final(entries)@)),
{
    replace_token_matches(line, entries, EntityKind::InternalIdentifier)
}

/// The token after each `host ` keyword, when it looks like a host name.
fn replace_host_tokens(line: &Vec<char>, entries: &mut Vec<WorkEntry>) -> (out: Vec<char>)
    requires
        entries_wf(work_models(old(entries)@)),
    ensures
        (out@, work_models(final(entries)@)) == labeled_pass(
            line@,
            0,
            work_models(old(entries)@),
            "host "@,
            false,
            EntityKind::Hostname,
        ),
        entries_wf(work_models(final(entries)@)),
{
    let keyword = text::chars_of("host ");
    proof {
        reveal_strlit("host ");
    }
    replace_after_marker(line, &keyword, false, EntityKind::Hostname, entries)
}

/// The token after each `marker` and the white space after it, when the detector
/// for `kind` accepts it.
fn replace_labeled_tokens(
    line: &Vec<char>,
    marker: &str,
    kind: EntityKind,
    entries: &mut Vec<WorkEntry>,
) -> (out: Vec<char>)
    requires
        marker@.len() > 0,
        entries_wf(work_models(old(entries)@)),
    ensures
        (out@, work_models(final(entries)@)) == labeled_pass(
            line@,
            0,
            work_models(old(entries)@),
            marker@,
            true,
            kind,
        ),
        entries_wf(work_models(final(entries)@)),
{
    let m = text::chars_of(marker);
    replace_after_marker(line, &m, true, kind, entries)
}

fn replace_labeled_usernames(line: &Vec<char>, entries: &mut Vec<WorkEntry>) -> (out: Vec<char>)
    requires
        entries_wf(work_models(old(entries)@)),
    ensures
        ({
            let a = labeled_pass(
                line@,
                0,
                work_models(old(entries)@),
                "Username:"@,
                true,
                EntityKind::Username,
            );
            (out@, work_models(final(entries)@)) == labeled_pass(
                a.0,
                0,
                a.1,
                "User:"@,
                true,
                EntityKind::Username,
            )
        }),
        entries_wf(work_models(final(entries)@)),
{
    proof {
        reveal_strlit("Username:");
        reveal_strlit("User:");
    }
    let line = replace_labeled_tokens(line, "Username:", EntityKind::Username, entries);
    replace_labeled_tokens(&line, "User:", EntityKind::Username, entries)
}

fn replace_labeled_uuids(
    line: &Vec<char>,
    marker: &str,
    kind: EntityKind,
    entries: &mut Vec<WorkEntry>,
) -> (out: Vec<char>)
    requires
        marker@.len() > 0,
        entries_wf(work_models(old(entries)@)),
        kind == EntityKind::TenantId || kind == EntityKind::SubscriptionId,
    ensures
        (out@, work_models(final(entries)@)) == labeled_pass(
            line@,
            0,
            work_models(old(entries)@),
            marker@,
            true,
            kind,
        ),
        entries_wf(work_models(final(entries)@)),
{
    replace_labeled_tokens(line, marker, kind, entries)
}

/// All passes over one line, in order.
pub open spec fn sanitize_line_spec(line: Seq<char>, es: Seq<EntryModel>) -> (
    Seq<char>,
    Seq<EntryModel>,
) {
    let l1 = customer_pass(line, es);
    let l2 = token_pass(l1.0, 0, l1.1, EntityKind::CustomerUrl);
    let l3 = token_pass(l2.0, 0, l2.1, EntityKind::ResourceId);
    let l4 = token_pass(l3.0, 0, l3.1, EntityKind::EmailAddress);
    let l5 = labeled_pass(l4.0, 0, l4.1, "Username:"@, true, EntityKind::Username);
    let l6 = labeled_pass(l5.0, 0, l5.1, "User:"@, true, EntityKind::Username);
    let l7 = labeled_pass(l6.0, 0, l6.1, "host "@, false, EntityKind::Hostname);
    let l8 = token_pass(l7.0, 0, l7.1, EntityKind::IpAddress);
    let l9 = labeled_pass(l8.0, 0, l8.1, "Tenant:"@, true, EntityKind::TenantId);
    let l10 = labeled_pass(l9.0, 0, l9.1, "Subscription:"@, true, EntityKind::SubscriptionId);
    token_pass(l10.0, 0, l10.1, EntityKind::InternalIdentifier)
}

fn sanitize_line(line: &Vec<char>, entries: &mut Vec<WorkEntry>) -> (out: Vec<char>)
    requires
        entries_wf(work_models(old(entries)@)),
    ensures
        (out@, work_models(final(entries)@)) == sanitize_line_spec(
            line@,
            work_models(old(entries)@),
        ),
        entries_wf(work_models(final(entries)@)),
{
    proof {
        reveal_strlit("Tenant:");
        reveal_strlit("Subscription:");
    }
    let line = replace_customer_name(line, entries);
    let line = replace_url_tokens(&line, entries);
    let line = replace_resource_ids(&line, entries);
    let line = replace_email_tokens(&line, entries);
    let line = replace_labeled_usernames(&line, entries);
    let line = replace_host_tokens(&line, entries);
    let line = replace_ip_tokens(&line, entries);
    let line = replace_labeled_uuids(&line, "Tenant:", EntityKind::TenantId, entries);
    let line = replace_labeled_uuids(&line, "Subscription:", EntityKind::SubscriptionId, entries);
    replace_generic_uuid_tokens(&line, entries)
}


// ---------------------------------------------------------------------------
// Whole documents
// ---------------------------------------------------------------------------

/// The lines sanitized in order, the table threaded from one line to the next.
pub open spec fn sanitize_lines(ls: Seq<Seq<char>>, es: Seq<EntryModel>) -> (
    Seq<Seq<char>>,
    Seq<EntryModel>,
)
    decreases ls.len(),
{
    if ls.len() == 0 {
        (seq![], es)
    } else {
        let r = sanitize_lines(ls.drop_last(), es);
        let l = sanitize_line_spec(ls.last(), r.1);
        (r.0.push(l.0), l.1)
    }
}

/// Whether some raw value of the table is still present in the text.
pub open spec fn leaves_raw_value(text: Seq<char>, es: Seq<EntryModel>) -> bool {
    exists|i: int| 0 <= i < es.len() && text::occurs_in(text, (#[trigger] es[i]).raw)
}

/// The sanitized text of a document and its symbol table, starting from an empty table.
pub open spec fn symbolized(contents: Seq<char>) -> (Seq<char>, Seq<EntryModel>) {
    let r = sanitize_lines(text::lines(contents), seq![]);
    (text::join_lines(r.0), r.1)
}

/// Whether the sanitized text of a document is safe to send out: nothing
/// detectable and no raw value of the table is left in it.
pub open spec fn safe_output(contents: Seq<char>) -> bool {
    &&& !detect::has_detectable_content(symbolized(contents).0)
    &&& !leaves_raw_value(symbolized(contents).0, symbolized(contents).1)
}

/// Whether `symbolize` accepts a document with these contents: its sanitized text
/// is safe, and rehydrating that text with its table gives the contents back.
pub open spec fn accepted(contents: Seq<char>) -> bool {
    &&& safe_output(contents)
    &&& rehydrate::restore(symbolized(contents).0, symbolized(contents).1) == contents
}

impl SymbolizedCase {
    /// How many values were symbolized.
    pub fn symbol_count(&self) -> (n: usize)
        ensures
            n == self.entries@.len(),
    {
        self.entries.len()
    }

    /// How many values of kind `kind` were symbolized.
    pub fn count_by_kind(&self, kind: EntityKind) -> (n: usize)
        ensures
            n == count_kind(entry_models(self.entries@), kind),
    {
        let ghost es = entry_models(self.entries@);
        let mut n: usize = 0;
        for i in 0..self.entries.len()
            invariant
                es == entry_models(self.entries@),
                n <= i,
                n == count_kind(es.take(i as int), kind),
        {
            assert(es.take(i + 1).drop_last() =~= es.take(i as int));
            assert(es[i as int] == self.entries@[i as int]@);
            if self.entries[i].kind == kind {
                n += 1;
            }
        }
        assert(es.take(self.entries.len() as int) =~= es);
        n
    }
}

fn publish_entries(entries: &Vec<WorkEntry>) -> (r: Vec<SymbolEntry>)
    ensures
        entry_models(r@) == work_models(entries@),
{
    let mut r: Vec<SymbolEntry> = Vec::new();
    for i in 0..entries.len()
        invariant
            entry_models(r@) == work_models(entries@).take(i as int),
    {
        let e = SymbolEntry {
            kind: entries[i].kind,
            symbol: text::string_of(&entries[i].symbol),
            raw: text::string_of(&entries[i].raw),
        };
        assert(e@ == entries@[i as int]@);
        let ghost before = r@;
        r.push(e);
        assert(entry_models(r@) =~= entry_models(before).push(e@));
        assert(work_models(entries@).take(i + 1) =~= work_models(entries@).take(i as int).push(
            entries@[i as int]@,
        ));
    }
    assert(work_models(entries@).take(entries.len() as int) =~= work_models(entries@));
    r
}

/// Sanitizes every line of a document. The result is refused when a detectable
/// value or a symbolized raw value is still present in it, and otherwise when
/// rehydrating it with its table would not give the document's contents back.
pub fn symbolize(document: &CaseDocument) -> (r: Result<SymbolizedCase, SymbolizeError>)
    ensures
        r is Ok <==> accepted(document.contents@),
        r matches Err(e) ==> (e == SymbolizeError::UnsanitizedContent <==> !safe_output(
            document.contents@,
        )),
        r matches Ok(case) ==> {
            &&& case.source_name@ == document.source_name@
            &&& case.sanitized_contents@ == symbolized(document.contents@).0
            &&& entry_models(case.entries@) == symbolized(document.contents@).1
            &&& case.line_count == document.line_count
            &&& entries_wf(entry_models(case.entries@))
            &&& forall|i: int, j: int|
                0 <= i < j < case.entries@.len() ==> (#[trigger] case.entries@[i]).symbol@ != (
                #[trigger] case.entries@[j]).symbol@
            &&& !detect::has_detectable_content(case.sanitized_contents@)
            &&& forall|i: int|
                0 <= i < case.entries@.len() ==> !text::occurs_in(
                    case.sanitized_contents@,
                    (#[trigger] case.entries@[i]).raw@,
                )
            &&& rehydrate::restore(case.sanitized_contents@, entry_models(case.entries@))
                == document.contents@
        },
{
    let contents = text::chars_of(document.contents.as_str());
    let lines = text::split_lines(&contents);
    let ghost ls = text::views(lines@);
    let mut entries: Vec<WorkEntry> = Vec::new();
    let mut sanitized_lines: Vec<Vec<char>> = Vec::new();
    assert(work_models(entries@) =~= seq![]);
    assert(ls.take(0) =~= seq![]);
    for i in 0..lines.len()
        invariant
            ls == text::views(lines@),
            entries_wf(work_models(entries@)),
            (text::views(sanitized_lines@), work_models(entries@)) == sanitize_lines(
                ls.take(i as int),
                seq![],
            ),
    {
        assert(ls[i as int] == lines@[i as int]@);
        let ghost before = sanitized_lines@;
        let line = sanitize_line(&lines[i], &mut entries);
        sanitized_lines.push(line);
        assert(ls.take(i + 1).drop_last() =~= ls.take(i as int));
        assert(text::views(sanitized_lines@) =~= text::views(before).push(line@));
    }
    assert(ls.take(lines.len() as int) =~= ls);
    let sanitized = text::join_with_newlines(&sanitized_lines);
    if detect::contains_detectable_sensitive_content(&sanitized) {
        return Err(SymbolizeError::UnsanitizedContent);
    }
    let ghost es = work_models(entries@);
    let ghost target = symbolized(document.contents@);
    assert(sanitized@ == target.0 && es == target.1);
    for i in 0..entries.len()
        invariant
            es == work_models(entries@),
            sanitized@ == target.0,
            es == target.1,
            target == symbolized(document.contents@),
            forall|j: int| 0 <= j < i ==> !text::occurs_in(sanitized@, (#[trigger] es[j]).raw),
    {
        assert(es[i as int] == entries@[i as int]@);
        if text::contains_chars(&sanitized, &entries[i].raw) {
            assert(leaves_raw_value(sanitized@, es));
            return Err(SymbolizeError::UnsanitizedContent);
        }
    }
    let published = publish_entries(&entries);
    let restored = rehydrate::restore_text(&sanitized, &published);
    if !text::chars_equal(&restored, &contents) {
        return Err(SymbolizeError::UnrestorableContent);
    }
    proof {
        let pm = entry_models(published@);
        lemma_symbols_distinct(pm);
        assert forall|i: int, j: int| 0 <= i < j < published@.len() implies (
        #[trigger] published@[i]).symbol@ != (#[trigger] published@[j]).symbol@ by {
            assert(pm[i] == published@[i]@ && pm[j] == published@[j]@);
        }
        assert forall|i: int| 0 <= i < published@.len() implies !text::occurs_in(
            sanitized@,
            (#[trigger] published@[i]).raw@,
        ) by {
            assert(pm[i] == published@[i]@);
        }
    }
    Ok(
        SymbolizedCase {
            source_name: document.source_name.clone(),
            sanitized_contents: text::string_of(&sanitized),
            entries: published,
            line_count: document.line_count,
        },
    )
}

} // verus!
