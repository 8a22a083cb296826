use cpx_core::ingest::{ingest, IngestRequest};
use cpx_core::project::{case_id_from_source, normalize_case_component, project, ProjectError};
use cpx_core::symbolize::{symbolize, EntityKind, SymbolEntry, SymbolizedCase};
use cpx_core::FORMAT_VERSION;

const CANONICAL_INPUT: &str = "Customer Contoso Ltd reported that the AMA agent on host ama-prod-17.contoso.local failed to read workspace /subscriptions/11111111-2222-3333-4444-555555555555/resourceGroups/rg-ama/providers/Microsoft.OperationalInsights/workspaces/law-prod.\r\nContact: admin@contoso.com\r\nTenant: 72f988bf-86f1-41af-91ab-2d7cd011db47\r\nTimestamp: 2026-03-08T00:00:00Z\r\nError: 0x80070005\r\n";

const CANONICAL_PROJECTION: &str = "FORMAT cpx-v1\r\nCASE canonical-case\r\nSUMMARY\r\n line_count=5\r\n symbolized_entities=5\r\n customer_name=1\r\n tenant_id=1\r\n email_address=1\r\n hostname=1\r\n resource_id=1\r\nEVENTS\r\n t+00 Customer C1 reported that the AMA agent on host H1 failed to read workspace R1.\r\n t+01 Contact: E1\r\n t+02 Tenant: T1\r\n t+03 Timestamp: 2026-03-08T00:00:00Z\r\n t+04 Error: 0x80070005\r\n";

fn normalize_fixture(contents: &str) -> String {
    contents.replace("\r\n", "\n").trim_end_matches('\n').to_owned()
}

fn case_with_source(source_name: &str, sanitized: &str) -> SymbolizedCase {
    SymbolizedCase {
        source_name: source_name.to_owned(),
        sanitized_contents: sanitized.to_owned(),
        entries: Vec::new(),
        line_count: 1,
    }
}

fn case_id_of(source_name: &str) -> String {
    project(&case_with_source(source_name, "event")).expect("expected projection").case_id
}

#[test]
fn projects_the_canonical_case() {
    let document = ingest(IngestRequest {
        source_name: "canonical-case.txt".to_owned(),
        contents: CANONICAL_INPUT.to_owned(),
    })
    .expect("expected ingest to succeed");
    let symbolized = symbolize(&document).expect("expected symbolization to succeed");
    let projection = project(&symbolized).expect("expected projection to succeed");
    let expected = normalize_fixture(CANONICAL_PROJECTION);

    assert_eq!(projection.case_id, "canonical-case");
    assert_eq!(normalize_fixture(&projection.body), expected);
}

#[test]
fn uses_parent_directory_when_the_file_name_is_input() {
    let document = ingest(IngestRequest {
        source_name: r"C:\fixtures\canonical-case\input.txt".to_owned(),
        contents: CANONICAL_INPUT.to_owned(),
    })
    .expect("expected ingest to succeed");
    let symbolized = symbolize(&document).expect("expected symbolization to succeed");
    let projection = project(&symbolized).expect("expected projection to succeed");

    assert_eq!(projection.case_id, "canonical-case");
}

#[test]
fn projection_starts_with_the_format_record() {
    let projection = project(&case_with_source("a.txt", "one")).expect("expected projection");

    assert_eq!(projection.format_version, FORMAT_VERSION);
    assert_eq!(projection.body.lines().next(), Some("FORMAT cpx-v1"));
    assert_eq!(
        projection.body,
        "FORMAT cpx-v1\nCASE a\nSUMMARY\n line_count=1\n symbolized_entities=0\nEVENTS\n t+00 one\n"
    );
}

#[test]
fn refuses_a_blank_case() {
    let error = project(&case_with_source("a.txt", " \n\t ")).expect_err("expected empty case");

    assert_eq!(error, ProjectError::EmptyCase);
    assert_eq!(error.message(), "cannot project an empty case");
}

#[test]
fn derives_case_ids_from_source_names() {
    assert_eq!(case_id_of("Case  Report (Final).v2.TXT"), "case-report-final-v2");
    assert_eq!(case_id_of("/tmp/cases/Input.txt"), "cases");
    assert_eq!(case_id_of("input.txt"), "input");
    assert_eq!(case_id_of("/tmp/___/input.txt"), "input");
    assert_eq!(case_id_of("stdin"), "stdin");
    assert_eq!(case_id_of(""), "case");
    assert_eq!(case_id_of("///"), "case");
    assert_eq!(case_id_of("---.txt"), "case");
    assert_eq!(case_id_of(".hidden"), "case");
    assert_eq!(case_id_of("dir/archive.tar.gz"), "archive-tar");
    assert_eq!(case_id_of("Ünïcode Case.txt"), "n-code-case");
}

#[test]
fn case_ids_are_already_normalized() {
    for source in ["My Case!.txt", "x/--A--B--/input.md", "trailing-", "ΑΒΓ"] {
        let id = case_id_of(source);
        assert!(!id.is_empty());
        assert!(id.chars().all(|c| c.is_ascii_lowercase() || c.is_ascii_digit() || c == '-'));
        assert!(!id.starts_with('-') && !id.ends_with('-'));
        assert!(!id.contains("--"));
        assert_eq!(case_id_of(&format!("{id}.txt")), id);
    }
}

#[test]
fn numbers_events_with_at_least_two_digits() {
    let lines: Vec<String> = (0..12).map(|i| format!("e{i}")).collect();
    let projection =
        project(&case_with_source("n.txt", &lines.join("\n"))).expect("expected projection");
    let events: Vec<&str> = projection.body.lines().skip_while(|l| *l != "EVENTS").skip(1).collect();

    assert_eq!(events.len(), 12);
    assert_eq!(events[0], " t+00 e0");
    assert_eq!(events[9], " t+09 e9");
    assert_eq!(events[10], " t+10 e10");
    assert_eq!(events[11], " t+11 e11");
}

#[test]
fn summary_lists_only_kinds_that_occur_in_a_fixed_order() {
    let entry = |kind: EntityKind, symbol: &str, raw: &str| SymbolEntry {
        kind,
        symbol: symbol.to_owned(),
        raw: raw.to_owned(),
    };
    let case = SymbolizedCase {
        source_name: "s.txt".to_owned(),
        sanitized_contents: "x".to_owned(),
        entries: vec![
            entry(EntityKind::InternalIdentifier, "ID1", "u"),
            entry(EntityKind::IpAddress, "IP1", "1.1.1.1"),
            entry(EntityKind::IpAddress, "IP2", "1.1.1.2"),
            entry(EntityKind::CustomerName, "C1", "n"),
        ],
        line_count: 12,
    };
    let projection = project(&case).expect("expected projection");

    assert_eq!(
        projection.body,
        "FORMAT cpx-v1\nCASE s\nSUMMARY\n line_count=12\n symbolized_entities=4\n customer_name=1\n ip_address=2\n internal_identifier=1\nEVENTS\n t+00 x\n"
    );
}

#[test]
fn projection_ignores_raw_values_and_symbols() {
    let entry = |kind: EntityKind, symbol: &str, raw: &str| SymbolEntry {
        kind,
        symbol: symbol.to_owned(),
        raw: raw.to_owned(),
    };
    let first = SymbolizedCase {
        source_name: "same.txt".to_owned(),
        sanitized_contents: "Contact: E1".to_owned(),
        entries: vec![entry(EntityKind::EmailAddress, "E1", "alice@example.com")],
        line_count: 1,
    };
    let second = SymbolizedCase {
        source_name: "same.txt".to_owned(),
        sanitized_contents: "Contact: E1".to_owned(),
        entries: vec![entry(EntityKind::EmailAddress, "E9", "bob@example.org")],
        line_count: 1,
    };
    let a = project(&first).expect("expected projection");
    let b = project(&second).expect("expected projection");

    assert_eq!(a.body, b.body);
    assert!(!a.body.contains("alice@example.com"));
}

fn chars(s: &str) -> Vec<char> {
    s.chars().collect()
}

fn text(v: &[char]) -> String {
    v.iter().collect()
}

#[test]
fn normalizing_a_component_twice_changes_nothing() {
    for value in ["My  Case!!", "--A__b--", "", "ΑΒΓ", "a-b", "Ünïcode Case"] {
        let once = normalize_case_component(&chars(value));
        let twice = normalize_case_component(&once);
        assert_eq!(once, twice);
        let once = text(&once);
        assert!(once.chars().all(|c| c.is_ascii_lowercase() || c.is_ascii_digit() || c == '-'));
        assert!(!once.starts_with('-') && !once.ends_with('-') && !once.contains("--"));
        let kept: String =
            value.chars().filter(|c| c.is_ascii_alphanumeric()).map(|c| c.to_ascii_lowercase()).collect();
        assert_eq!(once.replace('-', ""), kept);
    }
    assert_eq!(text(&normalize_case_component(&chars("My  Case!!"))), "my-case");
}

#[test]
fn case_ids_come_from_the_file_stem_or_its_directory() {
    assert_eq!(text(&case_id_from_source(&chars("canonical-case.txt"))), "canonical-case");
    assert_eq!(
        text(&case_id_from_source(&chars("C:\\fixtures\\canonical-case\\input.txt"))),
        "canonical-case"
    );
}
