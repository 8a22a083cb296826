use cpx_core::ingest::{ingest, CaseDocument, IngestError, IngestRequest};
use cpx_core::project::ProjectError;
use cpx_core::rehydrate::RehydrateError;
use cpx_core::symbolize::SymbolizeError;
use cpx_core::vault::{open, VaultError};
use cpx_core::workflow::{
    check_required_passphrase, ingest_summary, is_supported_format, resolve_project_vault,
    Failure, PassphraseError, VaultPlan, VaultPlanError,
};
use cpx_core::{
    EXIT_CODE_FORMAT_MISMATCH, EXIT_CODE_GENERAL_ERROR, EXIT_CODE_INPUT_ERROR,
    EXIT_CODE_SAFETY_FAILURE, EXIT_CODE_SUCCESS, EXIT_CODE_VAULT_ERROR, FORMAT_VERSION,
};

#[test]
fn summarizes_an_ingested_document() {
    let document = ingest(IngestRequest {
        source_name: "case.txt".to_owned(),
        contents: "  héllo\r\nworld 10\r\n".to_owned(),
    })
    .expect("expected ingest to succeed");

    assert_eq!(ingest_summary(&document), "SOURCE case.txt\nLINES 2\nCHARS 14\n");
}

#[test]
fn summary_counts_characters_not_bytes() {
    let document = CaseDocument {
        source_name: "stdin".to_owned(),
        contents: "東京".to_owned(),
        line_count: 123,
    };

    assert_eq!(ingest_summary(&document), "SOURCE stdin\nLINES 123\nCHARS 2\n");
}

#[test]
fn accepts_only_the_current_format() {
    assert!(is_supported_format(FORMAT_VERSION));
    assert!(is_supported_format("cpx-v1"));
    assert!(!is_supported_format("future-format"));
    assert!(!is_supported_format("cpx-v1 "));
    assert!(!is_supported_format(""));
}

#[test]
fn decides_when_a_vault_is_written() {
    assert_eq!(resolve_project_vault(None, None), Ok(VaultPlan::Skip));
    assert_eq!(
        resolve_project_vault(Some("v.cpxvault".to_owned()), None),
        Err(VaultPlanError::MissingPassphrase)
    );
    assert_eq!(
        resolve_project_vault(Some("v.cpxvault".to_owned()), Some(String::new())),
        Err(VaultPlanError::EmptyPassphrase)
    );
    assert_eq!(resolve_project_vault(None, Some(String::new())), Err(VaultPlanError::EmptyPassphrase));
    assert_eq!(
        resolve_project_vault(None, Some("secret".to_owned())),
        Ok(VaultPlan::Write { explicit_path: None, passphrase: "secret".to_owned() })
    );
    assert_eq!(
        resolve_project_vault(Some("v.cpxvault".to_owned()), Some("secret".to_owned())),
        Ok(VaultPlan::Write {
            explicit_path: Some("v.cpxvault".to_owned()),
            passphrase: "secret".to_owned()
        })
    );
}

#[test]
fn requires_a_non_empty_passphrase() {
    assert_eq!(check_required_passphrase(None), Err(PassphraseError::NotSet));
    assert_eq!(check_required_passphrase(Some(String::new())), Err(PassphraseError::Empty));
    assert_eq!(check_required_passphrase(Some("p".to_owned())), Ok("p".to_owned()));
}

#[test]
fn vaults_cannot_be_opened_yet() {
    let error = open("canonical-case").expect_err("expected vault open to be refused");
    assert_eq!(error, VaultError::NotYetImplemented);
    assert_eq!(error.message(), "vault support is not implemented yet");
}

#[test]
fn failures_map_to_the_documented_exit_codes() {
    assert_eq!(Failure::UnreadableInput.exit_code(), 4);
    assert_eq!(Failure::Ingest(IngestError::EmptyInput).exit_code(), 4);
    assert_eq!(Failure::Symbolize(SymbolizeError::UnsanitizedContent).exit_code(), 2);
    assert_eq!(Failure::Symbolize(SymbolizeError::UnrestorableContent).exit_code(), 2);
    assert_eq!(Failure::Project(ProjectError::EmptyCase).exit_code(), 1);
    assert_eq!(Failure::UnsupportedFormat.exit_code(), 5);
    assert_eq!(Failure::VaultPlan(VaultPlanError::MissingPassphrase).exit_code(), 3);
    assert_eq!(Failure::VaultPlan(VaultPlanError::EmptyPassphrase).exit_code(), 3);
    assert_eq!(Failure::UnresolvedVaultPath.exit_code(), 3);
    assert_eq!(Failure::Passphrase(PassphraseError::NotSet).exit_code(), 3);
    assert_eq!(Failure::Passphrase(PassphraseError::Empty).exit_code(), 3);
    assert_eq!(Failure::Vault(VaultError::NotYetImplemented).exit_code(), 3);
    assert_eq!(Failure::Rehydrate(RehydrateError::EmptyInput).exit_code(), 4);
    assert_eq!(Failure::UnwritableOutput.exit_code(), 1);
}

#[test]
fn exit_codes_follow_the_documented_contract() {
    assert_eq!(EXIT_CODE_SUCCESS, 0);
    assert_eq!(EXIT_CODE_GENERAL_ERROR, 1);
    assert_eq!(EXIT_CODE_SAFETY_FAILURE, 2);
    assert_eq!(EXIT_CODE_VAULT_ERROR, 3);
    assert_eq!(EXIT_CODE_INPUT_ERROR, 4);
    assert_eq!(EXIT_CODE_FORMAT_MISMATCH, 5);
}
