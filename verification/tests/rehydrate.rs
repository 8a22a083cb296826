use cpx_core::ingest::{ingest, CaseDocument, IngestRequest};
use cpx_core::project::project;
use cpx_core::rehydrate::{rehydrate, RehydrateError, RehydrateRequest};
use cpx_core::symbolize::{symbolize, EntityKind, SymbolEntry};
use cpx_core::vault::VaultHandle;

const CANONICAL_INPUT: &str = "Customer Contoso Ltd reported that the AMA agent on host ama-prod-17.contoso.local failed to read workspace /subscriptions/11111111-2222-3333-4444-555555555555/resourceGroups/rg-ama/providers/Microsoft.OperationalInsights/workspaces/law-prod.\r\nContact: admin@contoso.com\r\nTenant: 72f988bf-86f1-41af-91ab-2d7cd011db47\r\nTimestamp: 2026-03-08T00:00:00Z\r\nError: 0x80070005\r\n";

fn normalize_fixture(contents: &str) -> String {
    contents.replace("\r\n", "\n").trim_end_matches('\n').to_owned()
}

fn document(source_name: &str, contents: &str) -> CaseDocument {
    ingest(IngestRequest { source_name: source_name.to_owned(), contents: contents.to_owned() })
        .expect("expected ingest to succeed")
}

fn entry(kind: EntityKind, symbol: &str, raw: &str) -> SymbolEntry {
    SymbolEntry { kind, symbol: symbol.to_owned(), raw: raw.to_owned() }
}

fn vault(case_id: &str, entries: Vec<SymbolEntry>) -> VaultHandle {
    VaultHandle { case_id: case_id.to_owned(), entries }
}

fn round_trip(contents: &str) -> (CaseDocument, String) {
    let document = document("case.txt", contents);
    let symbolized = symbolize(&document).expect("expected symbolization to succeed");
    let rehydrated = rehydrate(&RehydrateRequest {
        projection_response: symbolized.sanitized_contents.clone(),
        vault: vault("case", symbolized.entries.clone()),
    })
    .expect("expected rehydration to succeed");
    (document, rehydrated)
}

#[test]
fn rehydrates_the_canonical_case_back_to_its_input() {
    let document = ingest(IngestRequest {
        source_name: "canonical-case.txt".to_owned(),
        contents: CANONICAL_INPUT.to_owned(),
    })
    .expect("expected ingest to succeed");
    let symbolized = symbolize(&document).expect("expected symbolization to succeed");
    let projection = project(&symbolized).expect("expected projection to succeed");
    let rehydrated = rehydrate(&RehydrateRequest {
        projection_response: symbolized.sanitized_contents.clone(),
        vault: vault(&projection.case_id, symbolized.entries.clone()),
    })
    .expect("expected round-trip rehydration to succeed");

    assert_eq!(normalize_fixture(&rehydrated), normalize_fixture(&document.contents));
    assert_eq!(rehydrated, document.contents);
    assert_eq!(normalize_fixture(&rehydrated), normalize_fixture(CANONICAL_INPUT));
}

#[test]
fn round_trips_labeled_values_urls_and_addresses() {
    let input = "User:bob signed in from 10.1.2.3\nSee https://portal.example.com/x?y=1 and (alice@corp.example).\nUsername: carol, host web-02.corp.example";
    let (document, rehydrated) = round_trip(input);

    assert_eq!(rehydrated, document.contents);
    assert_eq!(rehydrated, input);
}

#[test]
fn round_trips_a_value_symbolized_by_an_earlier_pass() {
    let (document, rehydrated) = round_trip("User: https://a.example.com/path");

    assert_eq!(rehydrated, document.contents);
}

#[test]
fn restores_symbols_inside_punctuation() {
    let request = RehydrateRequest {
        projection_response: "(C1), S1>S2 and \"U1\": H1.".to_owned(),
        vault: vault(
            "case",
            vec![
                entry(EntityKind::CustomerName, "C1", "Contoso Ltd"),
                entry(EntityKind::SubscriptionId, "S1", "sub-a"),
                entry(EntityKind::SubscriptionId, "S2", "sub-b"),
                entry(EntityKind::Username, "U1", "bob"),
                entry(EntityKind::Hostname, "H1", "db.example"),
            ],
        ),
    };

    assert_eq!(
        rehydrate(&request),
        Ok("(Contoso Ltd), sub-a>sub-b and \"bob\": db.example.".to_owned())
    );
}

#[test]
fn leaves_other_words_alone() {
    let request = RehydrateRequest {
        projection_response: "C10 xC1 C1x C9 c1 C1".to_owned(),
        vault: vault("case", vec![entry(EntityKind::CustomerName, "C1", "Acme")]),
    };

    assert_eq!(rehydrate(&request), Ok("C10 xC1 C1x C9 c1 Acme".to_owned()));
}

#[test]
fn keeps_the_response_when_the_vault_is_empty() {
    let request = RehydrateRequest {
        projection_response: "  E1 reported\r\nby U2  ".to_owned(),
        vault: vault("case", Vec::new()),
    };

    assert_eq!(rehydrate(&request), Ok("  E1 reported\r\nby U2  ".to_owned()));
}

#[test]
fn takes_the_first_entry_for_a_symbol() {
    let request = RehydrateRequest {
        projection_response: "E1".to_owned(),
        vault: vault(
            "case",
            vec![
                entry(EntityKind::EmailAddress, "E1", "first@x.example"),
                entry(EntityKind::EmailAddress, "E1", "second@x.example"),
            ],
        ),
    };

    assert_eq!(rehydrate(&request), Ok("first@x.example".to_owned()));
}

#[test]
fn refuses_a_blank_response() {
    for response in ["", "   ", "\n\t \r\n"] {
        let request = RehydrateRequest {
            projection_response: response.to_owned(),
            vault: vault("case", vec![entry(EntityKind::CustomerName, "C1", "Acme")]),
        };
        let error = rehydrate(&request).expect_err("expected a blank response to be refused");

        assert_eq!(error, RehydrateError::EmptyInput);
        assert_eq!(error.message(), "rehydration input was empty");
    }
}
