use cpx_core::ingest::{ingest, CaseDocument, IngestRequest};
use cpx_core::symbolize::{symbolize, EntityKind, SymbolizeError};

const CANONICAL_INPUT: &str = "Customer Contoso Ltd reported that the AMA agent on host ama-prod-17.contoso.local failed to read workspace /subscriptions/11111111-2222-3333-4444-555555555555/resourceGroups/rg-ama/providers/Microsoft.OperationalInsights/workspaces/law-prod.\r\nContact: admin@contoso.com\r\nTenant: 72f988bf-86f1-41af-91ab-2d7cd011db47\r\nTimestamp: 2026-03-08T00:00:00Z\r\nError: 0x80070005\r\n";

const CANONICAL_SANITIZED: &str = "Customer C1 reported that the AMA agent on host H1 failed to read workspace R1.\r\nContact: E1\r\nTenant: T1\r\nTimestamp: 2026-03-08T00:00:00Z\r\nError: 0x80070005\r\n";

fn normalize_fixture(contents: &str) -> String {
    contents.replace("\r\n", "\n").trim_end_matches('\n').to_owned()
}

fn document(source_name: &str, contents: &str) -> CaseDocument {
    ingest(IngestRequest { source_name: source_name.to_owned(), contents: contents.to_owned() })
        .expect("expected ingest to succeed")
}

#[test]
fn symbolizes_the_canonical_case() {
    let document = ingest(IngestRequest {
        source_name: "canonical-case.txt".to_owned(),
        contents: CANONICAL_INPUT.to_owned(),
    })
    .expect("expected ingest to succeed");

    let symbolized = symbolize(&document).expect("expected symbolization to succeed");
    let expected = normalize_fixture(CANONICAL_SANITIZED);

    assert_eq!(normalize_fixture(&symbolized.sanitized_contents), expected);
    assert_eq!(symbolized.symbol_count(), 5);
    assert_eq!(symbolized.count_by_kind(EntityKind::CustomerName), 1);
    assert_eq!(symbolized.count_by_kind(EntityKind::Hostname), 1);
    assert_eq!(symbolized.count_by_kind(EntityKind::ResourceId), 1);
    assert_eq!(symbolized.count_by_kind(EntityKind::EmailAddress), 1);
    assert_eq!(symbolized.count_by_kind(EntityKind::TenantId), 1);
}

#[test]
fn symbolizes_usernames_ip_addresses_and_urls() {
    let document = ingest(IngestRequest {
        source_name: "extended.txt".to_owned(),
        contents: "Username: svc-collector\nClient IP: 10.42.0.7\nPortal URL: https://contoso.example.com/support/case/42".to_owned(),
    })
    .expect("expected ingest to succeed");

    let symbolized = symbolize(&document).expect("expected symbolization to succeed");

    assert_eq!(symbolized.sanitized_contents, "Username: U1\nClient IP: IP1\nPortal URL: URL1");
    assert_eq!(symbolized.count_by_kind(EntityKind::Username), 1);
    assert_eq!(symbolized.count_by_kind(EntityKind::IpAddress), 1);
    assert_eq!(symbolized.count_by_kind(EntityKind::CustomerUrl), 1);
}

#[test]
fn preserves_wrapping_punctuation_around_symbols() {
    let document = ingest(IngestRequest {
        source_name: "punctuation.txt".to_owned(),
        contents: "Username: [svc-collector]\nPortal URL: (https://portal.contoso.example.com/cases/777),".to_owned(),
    })
    .expect("expected ingest to succeed");

    let symbolized = symbolize(&document).expect("expected symbolization to succeed");

    assert_eq!(symbolized.sanitized_contents, "Username: [U1]\nPortal URL: (URL1),");
}

#[test]
fn reuses_symbols_for_repeated_values() {
    let document = ingest(IngestRequest {
        source_name: "repeat.txt".to_owned(),
        contents: "Contact: alice@example.com\nContact: alice@example.com".to_owned(),
    })
    .expect("expected ingest to succeed");

    let symbolized = symbolize(&document).expect("expected symbolization to succeed");

    assert_eq!(symbolized.sanitized_contents, "Contact: E1\nContact: E1");
    assert_eq!(symbolized.symbol_count(), 1);
}

#[test]
fn fails_when_a_detectable_hostname_remains_unsanitized() {
    let document = ingest(IngestRequest {
        source_name: "host.txt".to_owned(),
        contents: "Observed ama-prod-17 without an explicit host marker".to_owned(),
    })
    .expect("expected ingest to succeed");

    let error = symbolize(&document).expect_err("expected unsanitized hostname to fail");

    assert_eq!(error, SymbolizeError::UnsanitizedContent);
    assert_eq!(error.message(), "detectable sensitive content remained after symbolization");
}

#[test]
fn numbers_values_of_each_kind_in_order_of_first_appearance() {
    let symbolized = symbolize(&document(
        "numbering.txt",
        "Contact: a@x.org b@y.org a@x.org\nServer 10.0.0.1 and 10.0.0.2; back to b@y.org",
    ))
    .expect("expected symbolization to succeed");

    assert_eq!(symbolized.sanitized_contents, "Contact: E1 E2 E1\nServer IP1 and IP2; back to E2");
    assert_eq!(symbolized.symbol_count(), 4);
    let symbols: Vec<&str> = symbolized.entries.iter().map(|e| e.symbol.as_str()).collect();
    assert_eq!(symbols, vec!["E1", "E2", "IP1", "IP2"]);
    let raws: Vec<&str> = symbolized.entries.iter().map(|e| e.raw.as_str()).collect();
    assert_eq!(raws, vec!["a@x.org", "b@y.org", "10.0.0.1", "10.0.0.2"]);
    assert_eq!(symbolized.entries[0].kind, EntityKind::EmailAddress);
    assert_eq!(symbolized.entries[2].kind, EntityKind::IpAddress);
}

#[test]
fn counts_by_kind_add_up_to_the_symbol_count() {
    let symbolized = symbolize(&document(
        "mixed.txt",
        "Customer Fabrikam reported trouble\nUser: jdoe\nTenant: 00000000-0000-0000-0000-00000000abcd\nSubscription: 11111111-aaaa-bbbb-cccc-222222222222\nRun 33333333-3333-3333-3333-333333333333 hit https://fabrikam.example.net/x",
    ))
    .expect("expected symbolization to succeed");

    assert_eq!(
        symbolized.sanitized_contents,
        "Customer C1 reported trouble\nUser: U1\nTenant: T1\nSubscription: S1\nRun ID1 hit URL1"
    );
    let kinds = [
        EntityKind::CustomerName,
        EntityKind::TenantId,
        EntityKind::SubscriptionId,
        EntityKind::EmailAddress,
        EntityKind::Username,
        EntityKind::Hostname,
        EntityKind::IpAddress,
        EntityKind::ResourceId,
        EntityKind::CustomerUrl,
        EntityKind::InternalIdentifier,
    ];
    let total: usize = kinds.iter().map(|k| symbolized.count_by_kind(*k)).sum();
    assert_eq!(total, symbolized.symbol_count());
    assert_eq!(symbolized.symbol_count(), 6);
}

#[test]
fn symbols_are_distinct_and_name_one_value_each() {
    let symbolized = symbolize(&document(
        "distinct.txt",
        "Contact: a@x.org\nUsername: a@x.org-not\nhost web-1.corp and host web-2.corp\nIPs 1.2.3.4 1.2.3.5 1.2.3.4",
    ))
    .expect("expected symbolization to succeed");

    for (i, a) in symbolized.entries.iter().enumerate() {
        for b in symbolized.entries.iter().skip(i + 1) {
            assert_ne!(a.symbol, b.symbol);
            assert!(a.kind != b.kind || a.raw != b.raw);
        }
    }
    assert_eq!(symbolized.count_by_kind(EntityKind::Hostname), 2);
    assert_eq!(symbolized.count_by_kind(EntityKind::IpAddress), 2);
}

#[test]
fn leaves_blank_customer_names_and_unlabeled_users_alone() {
    let symbolized = symbolize(&document(
        "controls.txt",
        "Customer   reported nothing\nUser: 12345\nhost localhost is fine",
    ))
    .expect("expected symbolization to succeed");

    assert_eq!(
        symbolized.sanitized_contents,
        "Customer   reported nothing\nUser: 12345\nhost localhost is fine"
    );
    assert_eq!(symbolized.symbol_count(), 0);
}

#[test]
fn rejects_host_names_left_without_a_host_marker() {
    let cases = [
        "Ticket 7 sees id-with-dash",
        "see example.com for details",
        "256.1.1.1 is no address but reads as a host name",
        "1234567-1234-1234-1234-123456789012 is no UUID but reads as a host name",
    ];
    for contents in cases {
        let error = symbolize(&document("leftover.txt", contents)).expect_err("expected failure");
        assert_eq!(error, SymbolizeError::UnsanitizedContent);
    }
}

#[test]
fn keeps_values_the_detectors_refuse() {
    let symbolized = symbolize(&document(
        "refused.txt",
        "Values 01234 @example.com x@example. x@.com ftp://a.b\nUser: 42",
    ))
    .expect("expected symbolization to succeed");

    assert_eq!(
        symbolized.sanitized_contents,
        "Values 01234 @example.com x@example. x@.com ftp://a.b\nUser: 42"
    );
    assert_eq!(symbolized.symbol_count(), 0);
}

#[test]
fn symbolizes_resource_ids_with_their_embedded_uuid() {
    let symbolized = symbolize(&document(
        "resource.txt",
        "Workspace '/subscriptions/aaaaaaaa-bbbb-cccc-dddd-eeeeeeeeeeee/rg/x' failed",
    ))
    .expect("expected symbolization to succeed");

    assert_eq!(symbolized.sanitized_contents, "Workspace 'R1' failed");
    assert_eq!(symbolized.count_by_kind(EntityKind::ResourceId), 1);
    assert_eq!(symbolized.count_by_kind(EntityKind::InternalIdentifier), 0);
    assert_eq!(
        symbolized.entries[0].raw,
        "/subscriptions/aaaaaaaa-bbbb-cccc-dddd-eeeeeeeeeeee/rg/x"
    );
}

#[test]
fn prefixes_and_summary_keys() {
    assert_eq!(EntityKind::CustomerName.prefix(), "C");
    assert_eq!(EntityKind::TenantId.prefix(), "T");
    assert_eq!(EntityKind::SubscriptionId.prefix(), "S");
    assert_eq!(EntityKind::EmailAddress.prefix(), "E");
    assert_eq!(EntityKind::Username.prefix(), "U");
    assert_eq!(EntityKind::Hostname.prefix(), "H");
    assert_eq!(EntityKind::IpAddress.prefix(), "IP");
    assert_eq!(EntityKind::ResourceId.prefix(), "R");
    assert_eq!(EntityKind::CustomerUrl.prefix(), "URL");
    assert_eq!(EntityKind::InternalIdentifier.prefix(), "ID");
    assert_eq!(EntityKind::CustomerName.summary_key(), "customer_name");
    assert_eq!(EntityKind::IpAddress.summary_key(), "ip_address");
    assert_eq!(EntityKind::InternalIdentifier.summary_key(), "internal_identifier");
}

#[test]
fn fails_when_a_symbolized_value_is_still_in_the_text() {
    let error = symbolize(&document("leak.txt", "Customer Bob reported Bob"))
        .expect_err("expected the leftover customer name to fail");

    assert_eq!(error, SymbolizeError::UnsanitizedContent);
    assert_eq!(error.message(), "detectable sensitive content remained after symbolization");
}

#[test]
fn does_not_symbolize_a_symbol_again() {
    let symbolized =
        symbolize(&document("user.txt", "User: a@b.c")).expect("expected symbolization to succeed");

    assert_eq!(symbolized.sanitized_contents, "User: E1");
    assert_eq!(symbolized.symbol_count(), 1);
    assert_eq!(symbolized.entries[0].kind, EntityKind::EmailAddress);
    assert_eq!(symbolized.entries[0].raw, "a@b.c");
}

#[test]
fn refuses_a_customer_name_equal_to_a_symbol() {
    let error = symbolize(&document("again.txt", "Customer Ann reported\nCustomer C1 reported"))
        .expect_err("expected a name that reads as a symbol to fail");

    assert_eq!(error, SymbolizeError::UnrestorableContent);
    assert_eq!(error.message(), "symbolized output would not rehydrate to the original input");
}

#[test]
fn refuses_input_already_holding_a_symbol_that_is_handed_out() {
    let error = symbolize(&document("echo.txt", "Contact: ops@x.example\nsee ticket E1"))
        .expect_err("expected the literal symbol to fail");

    assert_eq!(error, SymbolizeError::UnrestorableContent);
}

#[test]
fn accepts_symbol_shaped_words_that_are_not_handed_out() {
    let symbolized = symbolize(&document("plain.txt", "Contact: ops@x.example\nsee ticket C7"))
        .expect("expected symbolization to succeed");

    assert_eq!(symbolized.sanitized_contents, "Contact: E1\nsee ticket C7");
}

#[test]
fn refuses_a_raw_value_that_reads_as_a_later_symbol() {
    let error = symbolize(&document("collide.txt", "User: U2\nUser: bob"))
        .expect_err("expected the colliding raw value to fail");

    assert_eq!(error, SymbolizeError::UnsanitizedContent);
}

#[test]
fn no_raw_value_is_left_and_every_symbol_is_used() {
    let symbolized = symbolize(&document(
        "clean.txt",
        "Customer Fabrikam reported trouble\nContact: ops@fabrikam.example\nhost db-01.fabrikam.example down",
    ))
    .expect("expected symbolization to succeed");

    for entry in &symbolized.entries {
        assert!(!symbolized.sanitized_contents.contains(&entry.raw));
        assert!(symbolized.sanitized_contents.contains(&entry.symbol));
        for other in &symbolized.entries {
            assert_ne!(entry.raw, other.symbol);
        }
    }
    assert_eq!(symbolized.symbol_count(), 3);
}
