//! Verified core of a password-manager vault.
pub mod attempts;
pub mod audit;
pub mod audit_manifest;
pub mod authorization;
pub mod backup;
pub mod backup_contents;
pub mod backup_format;
pub mod backup_history;
pub mod backup_laws;
pub mod backup_records;
pub mod backup_stream;
pub mod backup_verify;
pub mod backup_written;
pub mod batch;
pub mod bodies;
pub mod bytes;
pub mod cbor;
pub mod codec_laws;
pub mod command;
pub mod commit;
pub mod compare;
pub mod content;
pub mod csv;
pub mod errors;
pub mod events;
pub mod export;
pub mod format_laws;
pub mod generator;
pub mod history;
pub mod human;
pub mod import;
pub mod lists;
pub mod material;
pub mod migration;
pub mod ordered;
pub mod prepare;
pub mod record_codec;
pub mod record_laws;
pub mod restore;
pub mod search;
pub mod staging;
pub mod table;
pub mod text;
pub mod totp;
pub mod vault;
pub mod views;
pub mod wipe;

pub use attempts::{
    AttemptOutcome, AttemptSnapshot, AttemptState, IdempotencyKey, StartAttempt,
};
pub use audit::{
    AuditAction, AuditActorKind, AuditDiscontinuity, AuditEvent, AuditOutcome, AuditPurgeScope,
    AuditQuery, AuditRecordView, PreparedAuditPurge,
};
pub use authorization::{
    AgentEnrollment, AgentIdentity, AgentPeer, AuthorizationReason, DelegatedCredential,
    PreparedAgentEnrollment,
};
pub use backup::{BackupSummary, PreparedBackupRestore};
pub use command::{HumanReceipt, PreparedHumanCommand};
pub use content::{
    Attachment, AuthRecord, CustomField, Destination, HumanMetadata, LogicalRecord, LogicalValue,
    PrivateKeyFormat, RecordKind, SourceEncoding, SourceField, TotpAlgorithm,
};
pub use csv::{CsvDelimiter, CsvEncoding};
pub use errors::{AttemptError, AuthorizationError, HumanCommitError};
pub use events::AuthorityEventHeader;
pub use generator::{GeneratedPassword, GeneratorConfig, PasswordRng};
pub use history::{HistoryEntry, ItemHistory, ItemLifecycle, ItemPurgeScope, PreparedItemPurge};
pub use human::{HumanCatalogEntry, PasswordRecord};
pub use material::{AttemptLease, TotpLease};
pub use migration::{
    CsvField, CsvImportDecision, CsvImportPreview, CsvImportProfile, CsvImportReport, CsvMapping,
    CsvRecordPreview, CsvRowPreview, CsvRowStatus, PreparedCsvImport,
};
pub use search::{SearchHit, SearchQuery};
pub use vault::VaultError;
