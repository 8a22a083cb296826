//! The decisions the command line makes around the pipeline: the ingest summary,
//! the accepted artifact format, when a vault is written, and the exit code each
//! failure is reported with.
use vstd::prelude::*;

use crate::ingest::{CaseDocument, IngestError};
use crate::project::ProjectError;
use crate::rehydrate::RehydrateError;
use crate::symbolize::SymbolizeError;
use crate::text;
use crate::vault::VaultError;
use crate::{
    EXIT_CODE_FORMAT_MISMATCH, EXIT_CODE_GENERAL_ERROR, EXIT_CODE_INPUT_ERROR,
    EXIT_CODE_SAFETY_FAILURE, EXIT_CODE_VAULT_ERROR, FORMAT_VERSION,
};

verus! {

/// `SOURCE <name>`, `LINES <count>` and `CHARS <count>`, one per line.
pub open spec fn summary_text(source: Seq<char>, line_count: nat, contents: Seq<char>) -> Seq<
    char,
> {
    "SOURCE "@ + source + seq!['\n'] + "LINES "@ + text::decimal(line_count) + seq!['\n']
        + "CHARS "@ + text::decimal(contents.len()) + seq!['\n']
}

/// The summary `cpx ingest` prints for a document.
pub fn ingest_summary(document: &CaseDocument) -> (summary: String)
    ensures
        summary@ == summary_text(
            document.source_name@,
            document.line_count as nat,
            document.contents@,
        ),
{
    let mut out = text::chars_of("SOURCE ");
    let source = text::chars_of(document.source_name.as_str());
    text::append_chars(&mut out, &source);
    out.push('\n');
    let lines_label = text::chars_of("LINES ");
    text::append_chars(&mut out, &lines_label);
    text::push_decimal(&mut out, document.line_count as u128);
    out.push('\n');
    let chars_label = text::chars_of("CHARS ");
    text::append_chars(&mut out, &chars_label);
    let contents = text::chars_of(document.contents.as_str());
    text::push_decimal(&mut out, contents.len() as u128);
    out.push('\n');
    assert(out@ =~= summary_text(
        document.source_name@,
        document.line_count as nat,
        document.contents@,
    ));
    text::string_of(&out)
}

/// Whether `cpx project` accepts the requested artifact format.
pub fn is_supported_format(format: &str) -> (b: bool)
    ensures
        b == (format@ == FORMAT_VERSION@),
{
    let requested = text::chars_of(format);
    let supported = text::chars_of(FORMAT_VERSION);
    text::chars_equal(&requested, &supported)
}

/// What `cpx project` does about a vault.
#[derive(Debug, Clone, PartialEq, Eq)]
pub enum VaultPlan {
    /// No vault was asked for and no passphrase is set.
    Skip,
    /// Write a vault with this passphrase, to the explicit path when one was given and
    /// next to the projection output otherwise.
    Write { explicit_path: Option<String>, passphrase: String },
}

#[derive(Debug, Clone, PartialEq, Eq)]
pub enum VaultPlanError {
    /// The passphrase variable is set but empty.
    EmptyPassphrase,
    /// A vault path was given but no passphrase is set.
    MissingPassphrase,
}

/// Decides, from the requested vault path and the passphrase variable's value, whether
/// `cpx project` writes a vault.
pub fn resolve_project_vault(vault_output: Option<String>, passphrase: Option<String>) -> (r:
    Result<VaultPlan, VaultPlanError>)
    ensures
        (match passphrase {
            None => if vault_output is None {
                r == Ok::<VaultPlan, VaultPlanError>(VaultPlan::Skip)
            } else {
                r == Err::<VaultPlan, VaultPlanError>(VaultPlanError::MissingPassphrase)
            },
            Some(p) => if p@.len() == 0 {
                r == Err::<VaultPlan, VaultPlanError>(VaultPlanError::EmptyPassphrase)
            } else {
                &&& r matches Ok(VaultPlan::Write { .. })
                &&& r->Ok_0->explicit_path == vault_output
                &&& r->Ok_0->passphrase@ == p@
            },
        }),
{
    match (vault_output, passphrase) {
        (None, None) => Ok(VaultPlan::Skip),
        (Some(_), None) => Err(VaultPlanError::MissingPassphrase),
        (vault_output, Some(passphrase)) => {
            if passphrase.as_str().is_empty() {
                Err(VaultPlanError::EmptyPassphrase)
            } else {
                Ok(VaultPlan::Write { explicit_path: vault_output, passphrase })
            }
        },
    }
}

#[derive(Debug, Clone, PartialEq, Eq)]
pub enum PassphraseError {
    /// The passphrase variable is not set.
    NotSet,
    /// The passphrase variable is set but empty.
    Empty,
}

/// The passphrase `cpx rehydrate` needs, from the passphrase variable's value.
pub fn check_required_passphrase(value: Option<String>) -> (r: Result<String, PassphraseError>)
    ensures
        (match value {
            None => r == Err::<String, PassphraseError>(PassphraseError::NotSet),
            Some(v) => if v@.len() == 0 {
                r == Err::<String, PassphraseError>(PassphraseError::Empty)
            } else {
                r matches Ok(p) && p@ == v@
            },
        }),
{
    match value {
        None => Err(PassphraseError::NotSet),
        Some(v) => {
            if v.as_str().is_empty() {
                Err(PassphraseError::Empty)
            } else {
                Ok(v)
            }
        },
    }
}

/// A failure of one of the commands, by where it arose.
#[derive(Debug, Clone, PartialEq, Eq)]
pub enum Failure {
    /// The input could not be read.
    UnreadableInput,
    /// The input could not be ingested.
    Ingest(IngestError),
    /// The document could not be symbolized safely.
    Symbolize(SymbolizeError),
    /// The projection could not be built.
    Project(ProjectError),
    /// The requested artifact format is not supported.
    UnsupportedFormat,
    /// The vault settings of `cpx project` do not fit together.
    VaultPlan(VaultPlanError),
    /// No vault path was given and none could be inferred.
    UnresolvedVaultPath,
    /// The passphrase `cpx rehydrate` needs is missing.
    Passphrase(PassphraseError),
    /// The vault could not be opened or written.
    Vault(VaultError),
    /// The response could not be rehydrated.
    Rehydrate(RehydrateError),
    /// The output could not be written.
    UnwritableOutput,
}

impl Failure {
    /// The exit code the failure is reported with: safety failures 2, vault
    /// failures 3, input failures 4, format mismatches 5, everything else 1.
    pub fn exit_code(&self) -> (c: i32)
        ensures
            c == match *self {
                Failure::UnreadableInput => EXIT_CODE_INPUT_ERROR,
                Failure::Ingest(_) => EXIT_CODE_INPUT_ERROR,
                Failure::Symbolize(_) => EXIT_CODE_SAFETY_FAILURE,
                Failure::Project(_) => EXIT_CODE_GENERAL_ERROR,
                Failure::UnsupportedFormat => EXIT_CODE_FORMAT_MISMATCH,
                Failure::VaultPlan(_) => EXIT_CODE_VAULT_ERROR,
                Failure::UnresolvedVaultPath => EXIT_CODE_VAULT_ERROR,
                Failure::Passphrase(_) => EXIT_CODE_VAULT_ERROR,
                Failure::Vault(_) => EXIT_CODE_VAULT_ERROR,
                Failure::Rehydrate(RehydrateError::EmptyInput) => EXIT_CODE_INPUT_ERROR,
                Failure::UnwritableOutput => EXIT_CODE_GENERAL_ERROR,
            },
    {
        match self {
            Failure::UnreadableInput => EXIT_CODE_INPUT_ERROR,
            Failure::Ingest(_) => EXIT_CODE_INPUT_ERROR,
            Failure::Symbolize(_) => EXIT_CODE_SAFETY_FAILURE,
            Failure::Project(_) => EXIT_CODE_GENERAL_ERROR,
            Failure::UnsupportedFormat => EXIT_CODE_FORMAT_MISMATCH,
            Failure::VaultPlan(_) => EXIT_CODE_VAULT_ERROR,
            Failure::UnresolvedVaultPath => EXIT_CODE_VAULT_ERROR,
            Failure::Passphrase(_) => EXIT_CODE_VAULT_ERROR,
            Failure::Vault(_) => EXIT_CODE_VAULT_ERROR,
            Failure::Rehydrate(RehydrateError::EmptyInput) => EXIT_CODE_INPUT_ERROR,
            Failure::UnwritableOutput => EXIT_CODE_GENERAL_ERROR,
        }
    }
}

} // verus!
