//! The errors of the vault operations.
use crate::vault::VaultError;
use vstd::prelude::*;

verus! {

/// Errors at the stable human transaction boundary.
#[derive(Debug)]
pub enum HumanCommitError {
    BodyChanged,
    ChallengeExpired,
    Crypto,
    InvalidCommand,
    InvalidInput,
    Integrity,
    AuditKeyUnavailable,
    InvalidSignature,
    Io,
    ItemNotFound,
    RandomUnavailable,
    StateChanged,
    Storage,
    TransactionConflict,
    Vault(VaultError),
    WrongChannel,
}

impl HumanCommitError {
    /// The fixed text of an error.
    pub open spec fn text(&self) -> Seq<char> {
        match self {
            HumanCommitError::BodyChanged => "human transaction body changed"@,
            HumanCommitError::ChallengeExpired => "human challenge expired or was already consumed"@,
            HumanCommitError::Crypto => "human transaction cryptography failed"@,
            HumanCommitError::InvalidCommand => "invalid human command"@,
            HumanCommitError::InvalidInput => "invalid human input"@,
            HumanCommitError::Integrity => "audit integrity verification failed"@,
            HumanCommitError::AuditKeyUnavailable => "device audit custody is unavailable"@,
            HumanCommitError::InvalidSignature => "invalid human signature"@,
            HumanCommitError::Io => "human content stream failed"@,
            HumanCommitError::ItemNotFound => "item not found"@,
            HumanCommitError::RandomUnavailable => "secure random source unavailable"@,
            HumanCommitError::StateChanged => "vault authority state changed"@,
            HumanCommitError::Storage => "human transaction storage failed"@,
            HumanCommitError::TransactionConflict => "human transaction id conflicts with another body"@,
            HumanCommitError::Vault(_) => "vault could not be opened for a human transaction"@,
            HumanCommitError::WrongChannel => "peer is not authenticated on the human channel"@,
        }
    }

    /// The fixed, secret-free text shown for this error.
    pub fn message(&self) -> (r: &'static str)
        ensures
            r@ == self.text(),
    {
        match self {
            HumanCommitError::BodyChanged => "human transaction body changed",
            HumanCommitError::ChallengeExpired => "human challenge expired or was already consumed",
            HumanCommitError::Crypto => "human transaction cryptography failed",
            HumanCommitError::InvalidCommand => "invalid human command",
            HumanCommitError::InvalidInput => "invalid human input",
            HumanCommitError::Integrity => "audit integrity verification failed",
            HumanCommitError::AuditKeyUnavailable => "device audit custody is unavailable",
            HumanCommitError::InvalidSignature => "invalid human signature",
            HumanCommitError::Io => "human content stream failed",
            HumanCommitError::ItemNotFound => "item not found",
            HumanCommitError::RandomUnavailable => "secure random source unavailable",
            HumanCommitError::StateChanged => "vault authority state changed",
            HumanCommitError::Storage => "human transaction storage failed",
            HumanCommitError::TransactionConflict => "human transaction id conflicts with another body",
            HumanCommitError::Vault(_) => "vault could not be opened for a human transaction",
            HumanCommitError::WrongChannel => "peer is not authenticated on the human channel",
        }
    }
}

/// Errors of delegated authorization.
#[derive(Debug)]
pub enum AuthorizationError {
    AccessSuspended,
    AgentRevoked,
    CredentialUnavailable,
    Integrity,
    InvalidInput,
    Storage,
    Unauthorized,
    Vault(VaultError),
}

impl AuthorizationError {
    /// The fixed text of an error.
    pub open spec fn text(&self) -> Seq<char> {
        match self {
            AuthorizationError::AccessSuspended => "delegated access is suspended"@,
            AuthorizationError::AgentRevoked => "agent generation is revoked"@,
            AuthorizationError::CredentialUnavailable => "credential is unavailable"@,
            AuthorizationError::Integrity => "delegated authority integrity failure"@,
            AuthorizationError::InvalidInput => "invalid delegated authorization input"@,
            AuthorizationError::Storage => "delegated authorization storage failure"@,
            AuthorizationError::Unauthorized => "agent is not authorized"@,
            AuthorizationError::Vault(_) => "vault is unavailable"@,
        }
    }

    /// The fixed, secret-free text shown for this error.
    pub fn message(&self) -> (r: &'static str)
        ensures
            r@ == self.text(),
    {
        match self {
            AuthorizationError::AccessSuspended => "delegated access is suspended",
            AuthorizationError::AgentRevoked => "agent generation is revoked",
            AuthorizationError::CredentialUnavailable => "credential is unavailable",
            AuthorizationError::Integrity => "delegated authority integrity failure",
            AuthorizationError::InvalidInput => "invalid delegated authorization input",
            AuthorizationError::Storage => "delegated authorization storage failure",
            AuthorizationError::Unauthorized => "agent is not authorized",
            AuthorizationError::Vault(_) => "vault is unavailable",
        }
    }

    /// How a human transaction error appears to delegated authorization.
    pub open spec fn of_human(value: HumanCommitError) -> AuthorizationError {
        match value {
            HumanCommitError::InvalidInput => AuthorizationError::InvalidInput,
            HumanCommitError::ItemNotFound => AuthorizationError::CredentialUnavailable,
            HumanCommitError::Storage => AuthorizationError::Storage,
            HumanCommitError::Vault(error) => AuthorizationError::Vault(error),
            _ => AuthorizationError::Integrity,
        }
    }
}

impl From<HumanCommitError> for AuthorizationError {
    fn from(value: HumanCommitError) -> (r: AuthorizationError) {
        match value {
            HumanCommitError::InvalidInput => AuthorizationError::InvalidInput,
            HumanCommitError::ItemNotFound => AuthorizationError::CredentialUnavailable,
            HumanCommitError::Storage => AuthorizationError::Storage,
            HumanCommitError::Vault(error) => AuthorizationError::Vault(error),
            _ => AuthorizationError::Integrity,
        }
    }
}

impl vstd::std_specs::convert::FromSpecImpl<HumanCommitError> for AuthorizationError {
    open spec fn obeys_from_spec() -> bool {
        true
    }

    open spec fn from_spec(value: HumanCommitError) -> AuthorizationError {
        AuthorizationError::of_human(value)
    }
}

/// Errors of authentication attempts.
#[derive(Debug)]
pub enum AttemptError {
    AccessSuspended,
    AgentRevoked,
    CredentialUnavailable,
    ClockUntrusted,
    IdempotencyConflict,
    IdempotencyExpired,
    ResultExpired,
    Integrity,
    InvalidArgument,
    NotFound,
    RateLimited,
    Storage,
    Vault(VaultError),
}

impl AttemptError {
    /// The stable code of an error.
    pub open spec fn code_text(&self) -> Seq<char> {
        match self {
            AttemptError::AccessSuspended => "ACCESS_SUSPENDED"@,
            AttemptError::AgentRevoked => "AGENT_REVOKED"@,
            AttemptError::CredentialUnavailable => "CREDENTIAL_UNAVAILABLE"@,
            AttemptError::ClockUntrusted => "CLOCK_UNTRUSTED"@,
            AttemptError::IdempotencyConflict => "IDEMPOTENCY_CONFLICT"@,
            AttemptError::IdempotencyExpired => "IDEMPOTENCY_EXPIRED"@,
            AttemptError::ResultExpired => "RESULT_EXPIRED"@,
            AttemptError::Integrity => "INTEGRITY_ERROR"@,
            AttemptError::InvalidArgument => "INVALID_ARGUMENT"@,
            AttemptError::NotFound => "NOT_FOUND"@,
            AttemptError::RateLimited => "RATE_LIMITED"@,
            AttemptError::Storage => "INTERNAL"@,
            AttemptError::Vault(_) => "CUSTODY_UNAVAILABLE"@,
        }
    }

    /// The stable code shown for this error.
    pub fn code(&self) -> (r: &'static str)
        ensures
            r@ == self.code_text(),
    {
        match self {
            AttemptError::AccessSuspended => "ACCESS_SUSPENDED",
            AttemptError::AgentRevoked => "AGENT_REVOKED",
            AttemptError::CredentialUnavailable => "CREDENTIAL_UNAVAILABLE",
            AttemptError::ClockUntrusted => "CLOCK_UNTRUSTED",
            AttemptError::IdempotencyConflict => "IDEMPOTENCY_CONFLICT",
            AttemptError::IdempotencyExpired => "IDEMPOTENCY_EXPIRED",
            AttemptError::ResultExpired => "RESULT_EXPIRED",
            AttemptError::Integrity => "INTEGRITY_ERROR",
            AttemptError::InvalidArgument => "INVALID_ARGUMENT",
            AttemptError::NotFound => "NOT_FOUND",
            AttemptError::RateLimited => "RATE_LIMITED",
            AttemptError::Storage => "INTERNAL",
            AttemptError::Vault(_) => "CUSTODY_UNAVAILABLE",
        }
    }
}

impl AttemptError {
    /// How an authorization error appears to an attempt: to an agent without
    /// authority nothing exists.
    pub open spec fn of_authorization(value: AuthorizationError) -> AttemptError {
        match value {
            AuthorizationError::AccessSuspended => AttemptError::AccessSuspended,
            AuthorizationError::AgentRevoked => AttemptError::AgentRevoked,
            AuthorizationError::CredentialUnavailable => AttemptError::CredentialUnavailable,
            AuthorizationError::Unauthorized => AttemptError::NotFound,
            AuthorizationError::Storage => AttemptError::Storage,
            AuthorizationError::Vault(error) => AttemptError::Vault(error),
            _ => AttemptError::Integrity,
        }
    }
}

impl From<VaultError> for HumanCommitError {
    fn from(value: VaultError) -> (r: HumanCommitError) {
        HumanCommitError::Vault(value)
    }
}

impl vstd::std_specs::convert::FromSpecImpl<VaultError> for HumanCommitError {
    open spec fn obeys_from_spec() -> bool {
        true
    }

    open spec fn from_spec(value: VaultError) -> HumanCommitError {
        HumanCommitError::Vault(value)
    }
}

impl From<VaultError> for AuthorizationError {
    fn from(value: VaultError) -> (r: AuthorizationError) {
        AuthorizationError::Vault(value)
    }
}

impl vstd::std_specs::convert::FromSpecImpl<VaultError> for AuthorizationError {
    open spec fn obeys_from_spec() -> bool {
        true
    }

    open spec fn from_spec(value: VaultError) -> AuthorizationError {
        AuthorizationError::Vault(value)
    }
}

impl From<VaultError> for AttemptError {
    fn from(value: VaultError) -> (r: AttemptError) {
        AttemptError::Vault(value)
    }
}

impl vstd::std_specs::convert::FromSpecImpl<VaultError> for AttemptError {
    open spec fn obeys_from_spec() -> bool {
        true
    }

    open spec fn from_spec(value: VaultError) -> AttemptError {
        AttemptError::Vault(value)
    }
}

impl From<HumanCommitError> for AttemptError {
    fn from(_value: HumanCommitError) -> (r: AttemptError) {
        AttemptError::Integrity
    }
}

impl vstd::std_specs::convert::FromSpecImpl<HumanCommitError> for AttemptError {
    open spec fn obeys_from_spec() -> bool {
        true
    }

    open spec fn from_spec(value: HumanCommitError) -> AttemptError {
        AttemptError::Integrity
    }
}

impl From<AuthorizationError> for AttemptError {
    fn from(value: AuthorizationError) -> (r: AttemptError) {
        match value {
            AuthorizationError::AccessSuspended => AttemptError::AccessSuspended,
            AuthorizationError::AgentRevoked => AttemptError::AgentRevoked,
            AuthorizationError::CredentialUnavailable => AttemptError::CredentialUnavailable,
            AuthorizationError::Unauthorized => AttemptError::NotFound,
            AuthorizationError::Storage => AttemptError::Storage,
            AuthorizationError::Vault(error) => AttemptError::Vault(error),
            _ => AttemptError::Integrity,
        }
    }
}

impl vstd::std_specs::convert::FromSpecImpl<AuthorizationError> for AttemptError {
    open spec fn obeys_from_spec() -> bool {
        true
    }

    open spec fn from_spec(value: AuthorizationError) -> AttemptError {
        AttemptError::of_authorization(value)
    }
}

/// What an error of a transaction is to one who asks for authorization, and what
/// that is to one who attempts: what they asked for and cannot have is said, a
/// fault of storage or of the vault is passed on, and all else is a fault of
/// integrity.
pub proof fn lemma_error_passed(e: HumanCommitError, a: AuthorizationError)
    ensures
        e is InvalidInput ==> AuthorizationError::of_human(e) is InvalidInput,
        e is ItemNotFound ==> AuthorizationError::of_human(e) is CredentialUnavailable,
        e is Storage ==> AuthorizationError::of_human(e) is Storage,
        e matches HumanCommitError::Vault(v) ==> AuthorizationError::of_human(e)
            == AuthorizationError::Vault(v),
        !(e is InvalidInput || e is ItemNotFound || e is Storage || e is Vault)
            ==> AuthorizationError::of_human(e) is Integrity,
        a is AccessSuspended ==> AttemptError::of_authorization(a) is AccessSuspended,
        a is AgentRevoked ==> AttemptError::of_authorization(a) is AgentRevoked,
        a is CredentialUnavailable ==> AttemptError::of_authorization(a) is CredentialUnavailable,
        a is Unauthorized ==> AttemptError::of_authorization(a) is NotFound,
        a is Storage ==> AttemptError::of_authorization(a) is Storage,
        a matches AuthorizationError::Vault(v) ==> AttemptError::of_authorization(a)
            == AttemptError::Vault(v),
        a is Integrity || a is InvalidInput ==> AttemptError::of_authorization(a) is Integrity,
{
}

/// The code of each error of an attempt.
pub proof fn lemma_error_codes(e: AttemptError)
    ensures
        e is AccessSuspended ==> e.code_text() == "ACCESS_SUSPENDED"@,
        e is AgentRevoked ==> e.code_text() == "AGENT_REVOKED"@,
        e is CredentialUnavailable ==> e.code_text() == "CREDENTIAL_UNAVAILABLE"@,
        e is ClockUntrusted ==> e.code_text() == "CLOCK_UNTRUSTED"@,
        e is IdempotencyConflict ==> e.code_text() == "IDEMPOTENCY_CONFLICT"@,
        e is IdempotencyExpired ==> e.code_text() == "IDEMPOTENCY_EXPIRED"@,
        e is ResultExpired ==> e.code_text() == "RESULT_EXPIRED"@,
        e is Integrity ==> e.code_text() == "INTEGRITY_ERROR"@,
        e is InvalidArgument ==> e.code_text() == "INVALID_ARGUMENT"@,
        e is NotFound ==> e.code_text() == "NOT_FOUND"@,
        e is RateLimited ==> e.code_text() == "RATE_LIMITED"@,
        e is Storage ==> e.code_text() == "INTERNAL"@,
        e is Vault ==> e.code_text() == "CUSTODY_UNAVAILABLE"@,
{
}

/// What is said of each error of a transaction.
pub proof fn lemma_human_texts(e: HumanCommitError)
    ensures
        e is BodyChanged ==> e.text() == "human transaction body changed"@,
        e is ChallengeExpired ==> e.text() == "human challenge expired or was already consumed"@,
        e is Crypto ==> e.text() == "human transaction cryptography failed"@,
        e is InvalidCommand ==> e.text() == "invalid human command"@,
        e is InvalidInput ==> e.text() == "invalid human input"@,
        e is Integrity ==> e.text() == "audit integrity verification failed"@,
        e is AuditKeyUnavailable ==> e.text() == "device audit custody is unavailable"@,
        e is InvalidSignature ==> e.text() == "invalid human signature"@,
        e is Io ==> e.text() == "human content stream failed"@,
        e is ItemNotFound ==> e.text() == "item not found"@,
        e is RandomUnavailable ==> e.text() == "secure random source unavailable"@,
        e is StateChanged ==> e.text() == "vault authority state changed"@,
        e is Storage ==> e.text() == "human transaction storage failed"@,
        e is TransactionConflict ==> e.text()
            == "human transaction id conflicts with another body"@,
        e is Vault ==> e.text() == "vault could not be opened for a human transaction"@,
        e is WrongChannel ==> e.text() == "peer is not authenticated on the human channel"@,
{
}

/// What is said of each error of an authorization.
pub proof fn lemma_authorization_texts(e: AuthorizationError)
    ensures
        e is AccessSuspended ==> e.text() == "delegated access is suspended"@,
        e is AgentRevoked ==> e.text() == "agent generation is revoked"@,
        e is CredentialUnavailable ==> e.text() == "credential is unavailable"@,
        e is Integrity ==> e.text() == "delegated authority integrity failure"@,
        e is InvalidInput ==> e.text() == "invalid delegated authorization input"@,
        e is Storage ==> e.text() == "delegated authorization storage failure"@,
        e is Unauthorized ==> e.text() == "agent is not authorized"@,
        e is Vault ==> e.text() == "vault is unavailable"@,
{
}

} // verus!
