//! Validation of a stored vault and cleanup of its temporary artifacts.
use crate::bytes::{same, same_str};
use crate::ordered::same_array;
use vstd::prelude::*;

verus! {

/// The format of a vault.
pub const FORMAT_VERSION: i64 = 1;

/// The cryptographic suite of a vault.
pub const SUITE: i64 = 1;

/// The epoch of the root of a vault.
pub const AUTHORITY_EPOCH: i64 = 1;

/// The most bytes of a root bundle.
pub const MAX_ROOT_BUNDLE_BYTES: i64 = 16777216;

/// Why a file operation failed, as far as the vault distinguishes it.
#[derive(Clone, Copy, Debug, PartialEq, Eq, Structural)]
pub enum IoFault {
    AlreadyExists,
    NotFound,
    PermissionDenied,
    Other,
}

/// Whether a new vault had become visible under its final name.
#[derive(Clone, Copy, Debug, PartialEq, Eq, Structural)]
pub enum PersistPublication {
    Published,
    Unpublished,
}

/// Errors of opening and creating a vault.
#[derive(Debug)]
pub enum VaultError {
    AlreadyExists,
    Crypto,
    InvalidFormat,
    Io(IoFault),
    Storage,
    Cleanup(CleanupFailure),
}

impl VaultError {
    /// The fixed text of an error.
    pub open spec fn text(&self) -> Seq<char> {
        match self {
            VaultError::AlreadyExists => "vault already exists"@,
            VaultError::Crypto => "vault cryptography failed"@,
            VaultError::InvalidFormat => "invalid or incompatible vault storage"@,
            VaultError::Io(_) => "vault I/O failed"@,
            VaultError::Storage => "vault storage failed"@,
            VaultError::Cleanup(_) => "vault cleanup failed"@,
        }
    }

    /// The fixed, secret-free text shown for this error.
    pub fn message(&self) -> (r: &'static str)
        ensures
            r@ == self.text(),
    {
        match self {
            VaultError::AlreadyExists => "vault already exists",
            VaultError::Crypto => "vault cryptography failed",
            VaultError::InvalidFormat => "invalid or incompatible vault storage",
            VaultError::Io(_) => "vault I/O failed",
            VaultError::Storage => "vault storage failed",
            VaultError::Cleanup(_) => "vault cleanup failed",
        }
    }

    /// What it means that the new vault could not be given its final name.
    pub fn from_link(fault: IoFault) -> (r: VaultError)
        ensures
            r == (if fault is AlreadyExists {
                VaultError::AlreadyExists
            } else {
                VaultError::Io(fault)
            }),
    {
        match fault {
            IoFault::AlreadyExists => VaultError::AlreadyExists,
            _ => VaultError::Io(fault),
        }
    }
}

/// Temporary artifacts that could not be removed, together with the outcome of
/// the operation that left them behind.
#[derive(Debug)]
pub struct CleanupFailure {
    publication: PersistPublication,
    operation: Option<Box<VaultError>>,
    failures: Vec<IoFault>,
}

/// The contents of a [`CleanupFailure`].
pub struct CleanupModel {
    pub publication: PersistPublication,
    pub operation: Option<VaultError>,
    pub failures: Seq<IoFault>,
}

impl View for CleanupFailure {
    type V = CleanupModel;

    closed spec fn view(&self) -> CleanupModel {
        CleanupModel {
            publication: self.publication,
            operation: match self.operation {
                Some(e) => Some(*e),
                None => None,
            },
            failures: self.failures@,
        }
    }
}

impl CleanupFailure {
    /// Whether the new vault had become visible.
    pub fn publication(&self) -> (r: PersistPublication)
        ensures
            r == self@.publication,
    {
        self.publication
    }

    /// How many artifacts could not be removed.
    pub fn failure_count(&self) -> (r: usize)
        ensures
            r == self@.failures.len(),
    {
        self.failures.len()
    }

    /// The error of the operation itself, where it failed too.
    pub fn operation(&self) -> (r: Option<&VaultError>)
        ensures
            match self@.operation {
                Some(e) => r is Some && *(r->0) == e,
                None => r is None,
            },
    {
        match &self.operation {
            Some(e) => Some(&**e),
            None => None,
        }
    }

    /// Why the artifacts could not be removed.
    pub fn failures(&self) -> (r: &[IoFault])
        ensures
            r@ == self@.failures,
    {
        self.failures.as_slice()
    }
}

/// The files that creating a vault leaves behind: the temporary database and
/// what the database may keep beside it.
pub struct PersistArtifacts {
    pub temporary: String,
    pub wal: String,
    pub shm: String,
}

impl PersistArtifacts {
    /// The artifacts of a temporary database.
    pub fn synthetic(temporary: &str) -> (r: PersistArtifacts)
        ensures
            r.temporary@ == temporary@,
            r.wal@ == temporary@ + "-wal"@,
            r.shm@ == temporary@ + "-shm"@,
    {
        let mut wal = temporary.to_owned();
        wal.append("-wal");
        let mut shm = temporary.to_owned();
        shm.append("-shm");
        PersistArtifacts { temporary: temporary.to_owned(), wal, shm }
    }
}

/// The failure of a removal that counts: an optional artifact may be absent.
pub open spec fn counted(removal: Result<(), IoFault>, optional: bool) -> Seq<IoFault> {
    match removal {
        Ok(()) => Seq::empty(),
        Err(fault) => if optional && fault is NotFound {
            Seq::empty()
        } else {
            seq![fault]
        },
    }
}

/// Adds the failure of a removal where it counts.
fn count_removal(failures: &mut Vec<IoFault>, removal: &Result<(), IoFault>, optional: bool)
    ensures
        final(failures)@ == old(failures)@ + counted(*removal, optional),
{
    let ghost before = failures@;
    match removal {
        Ok(_) => {},
        Err(fault) => {
            let absent = match fault {
                IoFault::NotFound => true,
                _ => false,
            };
            if !(optional && absent) {
                failures.push(*fault);
            }
        },
    }
    assert(failures@ =~= before + counted(*removal, optional));
}

/// Whether the removal of a file can have gone so.
pub open spec fn removed<F: Fn(&str) -> Result<(), IoFault>>(
    remove: F,
    path: Seq<char>,
    r: Result<(), IoFault>,
) -> bool {
    exists|p: &str| p@ == path && #[trigger] call_ensures(remove, (p,), r)
}

/// Removes every artifact and gives the failures. Only what the database may
/// keep beside the temporary file may be absent.
pub fn cleanup_persist_artifacts<F: Fn(&str) -> Result<(), IoFault>>(
    artifacts: &PersistArtifacts,
    remove: F,
) -> (r: Vec<IoFault>)
    requires
        forall|p: &str| #[trigger] call_requires(remove, (p,)),
    ensures
        exists|temporary: Result<(), IoFault>, wal: Result<(), IoFault>, shm: Result<(), IoFault>|
            {
                &&& #[trigger] removed(remove, artifacts.temporary@, temporary)
                &&& #[trigger] removed(remove, artifacts.wal@, wal)
                &&& #[trigger] removed(remove, artifacts.shm@, shm)
                &&& r@ == counted(temporary, false) + counted(wal, true) + counted(shm, true)
            },
{
    let temporary = remove(artifacts.temporary.as_str());
    let wal = remove(artifacts.wal.as_str());
    let shm = remove(artifacts.shm.as_str());
    assert(removed(remove, artifacts.temporary@, temporary));
    assert(removed(remove, artifacts.wal@, wal));
    assert(removed(remove, artifacts.shm@, shm));
    let mut failures: Vec<IoFault> = Vec::new();
    count_removal(&mut failures, &temporary, false);
    count_removal(&mut failures, &wal, true);
    count_removal(&mut failures, &shm, true);
    assert(failures@ =~= counted(temporary, false) + counted(wal, true) + counted(shm, true));
    failures
}

/// The outcome of creating a vault and cleaning up behind it: a failed cleanup
/// is an error that keeps the outcome of the operation.
pub fn combine_persist_result(
    operation: Result<(), VaultError>,
    publication: PersistPublication,
    failures: Vec<IoFault>,
) -> (r: Result<(), VaultError>)
    ensures
        failures@.len() == 0 ==> r == operation,
        failures@.len() > 0 ==> r is Err && r->Err_0 is Cleanup && (r->Err_0->Cleanup_0)@ == (
        CleanupModel {
            publication,
            operation: match operation {
                Ok(_) => None,
                Err(e) => Some(e),
            },
            failures: failures@,
        }),
{
    if failures.len() == 0 {
        return operation;
    }
    let operation = match operation {
        Ok(_) => None,
        Err(e) => Some(Box::new(e)),
    };
    Err(VaultError::Cleanup(CleanupFailure { publication, operation, failures }))
}

/// Creating a vault succeeds only where the operation and its cleanup did.
pub proof fn lemma_success_is_clean(
    temporary: Result<(), IoFault>,
    wal: Result<(), IoFault>,
    shm: Result<(), IoFault>,
)
    ensures
        counted(temporary, false) + counted(wal, true) + counted(shm,
            true) == Seq::<IoFault>::empty() <==> {
            &&& temporary is Ok
            &&& wal is Ok || wal->Err_0 is NotFound
            &&& shm is Ok || shm->Err_0 is NotFound
        },
{
    let (a, b, c) = (counted(temporary, false), counted(wal, true), counted(shm, true));
    assert((a + b + c).len() == a.len() + b.len() + c.len());
    if a.len() + b.len() + c.len() == 0 {
        assert(a + b + c =~= Seq::<IoFault>::empty());
    }
}

/// The public metadata of a vault, as it is stored.
pub struct VaultMetadata {
    pub format_version: i64,
    pub suite: i64,
    pub vault_id: Vec<u8>,
    pub authority_epoch: i64,
    pub human_public_key: Vec<u8>,
}

/// Whether stored metadata is that of a vault of this format.
pub open spec fn metadata_valid(m: VaultMetadata) -> bool {
    &&& m.format_version == FORMAT_VERSION
    &&& m.suite == SUITE
    &&& m.vault_id@.len() == 16
    &&& m.authority_epoch == AUTHORITY_EPOCH
    &&& m.human_public_key@.len() == 32
}

/// Takes the metadata of a vault of this format.
pub fn check_metadata(metadata: Option<VaultMetadata>) -> (r: Result<VaultMetadata, VaultError>)
    ensures
        if metadata is Some && metadata_valid(metadata->0) {
            r == Ok::<VaultMetadata, VaultError>(metadata->0)
        } else {
            r is Err && r->Err_0 is InvalidFormat
        },
{
    match metadata {
        Some(m) => if m.format_version != FORMAT_VERSION || m.suite != SUITE || m.vault_id.len()
            != 16 || m.authority_epoch != AUTHORITY_EPOCH || m.human_public_key.len() != 32 {
            Err(VaultError::InvalidFormat)
        } else {
            Ok(m)
        },
        None => Err(VaultError::InvalidFormat),
    }
}

/// Checks that a vault stores one object: its root bundle, of a size that may
/// be read.
pub fn check_bundle(row_count: i64, bundle_size: Option<i64>) -> (r: Result<(), VaultError>)
    ensures
        r == (if bundle_size is Some && row_count == 1 && 1 <= bundle_size->0
            <= MAX_ROOT_BUNDLE_BYTES {
            Ok::<(), VaultError>(())
        } else {
            Err(VaultError::InvalidFormat)
        }),
{
    match bundle_size {
        Some(size) => if row_count != 1 || size < 1 || size > MAX_ROOT_BUNDLE_BYTES {
            Err(VaultError::InvalidFormat)
        } else {
            Ok(())
        },
        None => Err(VaultError::InvalidFormat),
    }
}

/// Checks that a root bundle is the one that the metadata announces.
pub fn check_identity(
    metadata: &VaultMetadata,
    vault_id: &[u8; 16],
    epoch: u64,
    public_key: &[u8; 32],
) -> (r: Result<(), VaultError>)
    ensures
        r == (if vault_id@ == metadata.vault_id@ && epoch == metadata.authority_epoch
            && public_key@ == metadata.human_public_key@ {
            Ok::<(), VaultError>(())
        } else {
            Err(VaultError::InvalidFormat)
        }),
{
    let epoch_matches = metadata.authority_epoch >= 0 && metadata.authority_epoch as u64 == epoch;
    if same(vault_id.as_slice(), metadata.vault_id.as_slice()) && epoch_matches && same(
        public_key.as_slice(),
        metadata.human_public_key.as_slice(),
    ) {
        Ok(())
    } else {
        Err(VaultError::InvalidFormat)
    }
}

/// Checks that an unlocked root is the trusted one.
pub fn check_unlocked(
    vault_id: &[u8; 16],
    public_key: &[u8; 32],
    trusted_vault: &[u8; 16],
    trusted_key: &[u8; 32],
) -> (r: Result<(), VaultError>)
    ensures
        r == (if *vault_id == *trusted_vault && *public_key == *trusted_key {
            Ok::<(), VaultError>(())
        } else {
            Err(VaultError::InvalidFormat)
        }),
{
    if same_array(vault_id, trusted_vault) && same_array(public_key, trusted_key) {
        Ok(())
    } else {
        Err(VaultError::InvalidFormat)
    }
}

/// Checks that a new database keeps its journal beside it.
pub fn check_journal(mode: &str) -> (r: Result<(), VaultError>)
    ensures
        r == (if mode@ == "wal"@ {
            Ok::<(), VaultError>(())
        } else {
            Err(VaultError::InvalidFormat)
        }),
{
    if same_str(mode, "wal") {
        Ok(())
    } else {
        Err(VaultError::InvalidFormat)
    }
}

/// A vault is of the one format, suite and epoch that there is, with an
/// identifier and the public key of its owner.
pub proof fn lemma_metadata(m: VaultMetadata)
    ensures
        metadata_valid(m) <==> {
            &&& m.format_version == 1
            &&& m.suite == 1
            &&& m.authority_epoch == 1
            &&& m.vault_id@.len() == 16
            &&& m.human_public_key@.len() == 32
        },
{
}

/// A removal that failed is kept as it is, but for one that was not needed.
pub proof fn lemma_counted(fault: IoFault)
    ensures
        counted(Ok(()), true).len() == 0,
        counted(Ok(()), false).len() == 0,
        counted(Err(fault), false) == seq![fault],
        fault is NotFound ==> counted(Err(fault), true).len() == 0,
        !(fault is NotFound) ==> counted(Err(fault), true) == seq![fault],
{
}

} // verus!
