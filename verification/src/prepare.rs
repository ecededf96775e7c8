//! Decisions on the way to a prepared command: file sources, delegated
//! credentials, restored files and new root bundles.
use crate::authorization::{
    new_credential, CredentialModel, OperationalCredential, OperationalModel,
};
use crate::bytes::{same, same_str};
use crate::command::Body;
use crate::content::{auth_bytes, AttachmentModel, AuthModel, LogicalRecord, RecordModel};
use crate::errors::{AuthorizationError, HumanCommitError};
use crate::human::{delegated_account, shown_account};
use crate::material::{
    gathered, gathered_all, lemma_password_material, nothing, password_of, MaterialModel,
};
use crate::ordered::{holds, same_array};
use crate::record_codec::auths_then;
use crate::views::views;
use vstd::prelude::*;

verus! {

/// Whether sources are those of the files of a record, in order, none of which
/// has its bytes yet.
pub open spec fn sources_match(files: Seq<AttachmentModel>, sources: Seq<[u8; 16]>) -> bool {
    &&& files.len() == sources.len()
    &&& forall|i: int|
        0 <= i < files.len() ==> (#[trigger] files[i]).id == sources[i] && files[i].content.len()
            == 0
}

/// Checks that sources are those of the files of a record.
pub fn check_sources(record: &LogicalRecord, sources: &Vec<[u8; 16]>) -> (r: Result<
    (),
    HumanCommitError,
>)
    ensures
        r == (if sources_match(record@.attachments, sources@) {
            Ok::<(), HumanCommitError>(())
        } else {
            Err(HumanCommitError::InvalidInput)
        }),
{
    let files = record.attachments();
    let ghost models = views(files@);
    if files.len() != sources.len() {
        return Err(HumanCommitError::InvalidInput);
    }
    let mut i: usize = 0;
    while i < files.len()
        invariant
            i <= files@.len(),
            files@.len() == sources@.len(),
            models == views(files@),
            models == record@.attachments,
            forall|j: int|
                0 <= j < i ==> (#[trigger] models[j]).id == sources@[j] && models[j].content.len()
                    == 0,
        decreases files@.len() - i,
    {
        let file = &files[i];
        assert(file@ == models[i as int]);
        if !same_array(file.id(), &sources[i]) || file.content().len() != 0 {
            return Err(HumanCommitError::InvalidInput);
        }
        i += 1;
    }
    Ok(())
}

/// Whether the files of a new revision are carried over from the streams of the
/// visible one: none has its bytes, some should have, and each is stored as a
/// stream. All other files are stored whole, with the bytes that they have.
pub open spec fn carried(files: Seq<AttachmentModel>, streams: Seq<[u8; 16]>) -> bool {
    &&& exists|i: int| 0 <= i < files.len() && (#[trigger] files[i]).size > 0
    &&& forall|i: int|
        0 <= i < files.len() ==> (#[trigger] files[i]).content.len() == 0 && streams.contains(
            files[i].id,
        )
}

/// Decides whether the files of a new revision are carried over from the streams
/// of the visible one.
pub fn check_carried(record: &LogicalRecord, streams: &Vec<[u8; 16]>) -> (r: bool)
    ensures
        r == carried(record@.attachments, streams@),
{
    let files = record.attachments();
    let ghost models = views(files@);
    let mut sized = false;
    let mut i: usize = 0;
    while i < files.len()
        invariant
            i <= files@.len(),
            models == views(files@),
            models == record@.attachments,
            sized == (exists|j: int| 0 <= j < i && (#[trigger] models[j]).size > 0),
            forall|j: int|
                0 <= j < i ==> (#[trigger] models[j]).content.len() == 0 && streams@.contains(
                    models[j].id,
                ),
        decreases files@.len() - i,
    {
        let file = &files[i];
        assert(file@ == models[i as int]);
        if file.content().len() != 0 || !holds(streams, file.id()) {
            return false;
        }
        if file.size() > 0 {
            sized = true;
        }
        i += 1;
    }
    sized
}

/// Checks that a source ended where its file does and has its digest.
pub fn check_source_end(left_over: usize, sha256: &[u8; 32], digest: &[u8; 32]) -> (r: Result<
    (),
    HumanCommitError,
>)
    ensures
        r == (if left_over == 0 && *digest == *sha256 {
            Ok::<(), HumanCommitError>(())
        } else {
            Err(HumanCommitError::InvalidInput)
        }),
{
    if left_over == 0 && same_array(digest, sha256) {
        Ok(())
    } else {
        Err(HumanCommitError::InvalidInput)
    }
}

/// Where a file stands among the files of a record: the first place with its
/// identifier.
pub fn find_attachment(record: &LogicalRecord, id: &[u8; 16]) -> (r: Option<usize>)
    ensures
        match r {
            Some(i) => i < record@.attachments.len() && record@.attachments[i as int].id == *id
                && forall|j: int|
                0 <= j < i ==> (#[trigger] record@.attachments[j]).id != *id,
            None => forall|j: int|
                0 <= j < record@.attachments.len() ==> (#[trigger] record@.attachments[j]).id
                    != *id,
        },
{
    let files = record.attachments();
    let ghost models = views(files@);
    let mut i: usize = 0;
    while i < files.len()
        invariant
            i <= files@.len(),
            models == views(files@),
            models == record@.attachments,
            forall|j: int| 0 <= j < i ==> (#[trigger] models[j]).id != *id,
        decreases files@.len() - i,
    {
        let file = &files[i];
        assert(file@ == models[i as int]);
        if same_array(file.id(), id) {
            return Some(i);
        }
        i += 1;
    }
    None
}

/// The credential that an item is delegated as.
pub open spec fn delegated(item: [u8; 16], revision: [u8; 16], m: RecordModel) -> Option<
    OperationalModel,
> {
    match (shown_account(m), auth_bytes(m)) {
        (Some(account), Some(auth)) => Some(
            OperationalModel {
                descriptor: CredentialModel {
                    item_id: item,
                    revision_id: revision,
                    kind: m.kind,
                    title: m.human.title,
                    destination: if m.human.destinations.len() > 0 {
                        Some(m.human.destinations[0].value)
                    } else {
                        None
                    },
                    account: Some(account),
                },
                auth,
            },
        ),
        _ => None,
    }
}

/// The credential that an item is delegated as; one without a way to
/// authenticate is not.
pub fn delegate(item: [u8; 16], revision: [u8; 16], record: &LogicalRecord) -> (r: Result<
    OperationalCredential,
    AuthorizationError,
>)
    ensures
        match delegated(item, revision, record@) {
            Some(m) => r is Ok && (r->Ok_0)@ == m,
            None => r is Err && r->Err_0 is CredentialUnavailable,
        },
{
    let account = match delegated_account(record) {
        Some(account) => account,
        None => return Err(AuthorizationError::CredentialUnavailable),
    };
    let auth = match record.encode_auth() {
        Some(auth) => auth,
        None => return Err(AuthorizationError::CredentialUnavailable),
    };
    let human = record.human();
    let destination = if human.destinations.len() > 0 {
        assert(human@.destinations[0] == human.destinations@[0]@);
        Some(human.destinations[0].value.as_str().to_owned())
    } else {
        None
    };
    let descriptor = new_credential(
        item,
        revision,
        record.kind(),
        human.title.as_str().to_owned(),
        destination,
        Some(account),
    );
    Ok(OperationalCredential { descriptor, auth })
}

/// A provider is given the password of the item that was delegated.
pub proof fn lemma_delegated_password(
    item: [u8; 16],
    revision: [u8; 16],
    m: RecordModel,
    username: Seq<char>,
    password: Seq<u8>,
    destination_refs: Seq<u16>,
)
    requires
        m.auth == seq![AuthModel::Password { username, password, destination_refs }],
        auths_then(m.auth, Seq::empty()).len() <= u64::MAX,
    ensures
        delegated(item, revision, m) is Some,
        password_of((delegated(item, revision, m)->0).auth, "password"@) == Ok::<
            _,
            crate::errors::AttemptError,
        >(MaterialModel { username, password, subject_token: None, totp: None }),
{
    reveal_strlit("password");
    reveal_strlit("password_totp");
    assert("password"@.len() != "password_totp"@.len());
    lemma_password_material(m.auth, "password"@);
    reveal_with_fuel(gathered_all, 2);
    assert(m.auth.skip(1) =~= Seq::empty());
    assert(gathered_all(nothing(), m.auth) == gathered(nothing(), m.auth[0]));
}

/// The body of a command that replaces the root bundle, where the new bundle is
/// for the same root.
pub fn rotation_body(
    kind: &str,
    same_root: bool,
    transaction_id: [u8; 16],
    kind_digest: [u8; 32],
    package_digest: [u8; 32],
) -> (r: Result<Body, HumanCommitError>)
    ensures
        if (kind@ == "root-password-rotate"@ || kind@ == "root-recovery-rotate"@) && same_root {
            r == Ok::<Body, HumanCommitError>(
                Body {
                    transaction_id,
                    events_manifest_digest: kind_digest,
                    event_count: 0,
                    object_manifest_digest: Some(package_digest),
                },
            )
        } else {
            r is Err && r->Err_0 is InvalidInput
        },
{
    if (same_str(kind, "root-password-rotate") || same_str(kind, "root-recovery-rotate"))
        && same_root {
        Ok(
            Body {
                transaction_id,
                events_manifest_digest: kind_digest,
                event_count: 0,
                object_manifest_digest: Some(package_digest),
            },
        )
    } else {
        Err(HumanCommitError::InvalidInput)
    }
}

/// Checks the replacement of the root bundle: one is staged, it is for the
/// trusted root, and it replaced the one that was stored.
pub fn check_rotation(staged: bool, same_root: bool, replaced: usize) -> (r: Result<
    (),
    HumanCommitError,
>)
    ensures
        r == (if !staged {
            Err::<(), HumanCommitError>(HumanCommitError::BodyChanged)
        } else if !same_root || replaced != 1 {
            Err(HumanCommitError::Integrity)
        } else {
            Ok(())
        }),
{
    if !staged {
        Err(HumanCommitError::BodyChanged)
    } else if !same_root || replaced != 1 {
        Err(HumanCommitError::Integrity)
    } else {
        Ok(())
    }
}

/// The digest of the files of a restored revision: they are stored either as
/// streams or whole.
pub fn restored_object(
    streams: usize,
    inline: usize,
    stream_digest: Option<[u8; 32]>,
    inline_digest: Option<[u8; 32]>,
) -> (r: Result<[u8; 32], HumanCommitError>)
    ensures
        ({
            let digest = if streams > 0 {
                stream_digest
            } else {
                inline_digest
            };
            if (streams > 0 && inline > 0) || digest is None {
                r is Err && r->Err_0 is InvalidCommand
            } else {
                r == Ok::<[u8; 32], HumanCommitError>(digest->0)
            }
        }),
{
    if streams > 0 && inline > 0 {
        return Err(HumanCommitError::InvalidCommand);
    }
    let digest = if streams > 0 {
        stream_digest
    } else {
        inline_digest
    };
    match digest {
        Some(digest) => Ok(digest),
        None => Err(HumanCommitError::InvalidCommand),
    }
}

/// Whether a staged passkey registration is that of the staged revision.
pub fn check_registration(event_kind: &str, item: &[u8; 16], registered: &[u8]) -> (r: Result<
    (),
    HumanCommitError,
>)
    ensures
        r == (if event_kind@ == "item-revision"@ && registered@ == item@ {
            Ok::<(), HumanCommitError>(())
        } else {
            Err(HumanCommitError::BodyChanged)
        }),
{
    if same_str(event_kind, "item-revision") && same(registered, item) {
        Ok(())
    } else {
        Err(HumanCommitError::BodyChanged)
    }
}

/// Whether a change met the one row that it was meant for.
pub fn check_changed(rows: usize) -> (r: Result<(), HumanCommitError>)
    ensures
        r == (if rows == 1 {
            Ok::<(), HumanCommitError>(())
        } else {
            Err(HumanCommitError::StateChanged)
        }),
{
    if rows == 1 {
        Ok(())
    } else {
        Err(HumanCommitError::StateChanged)
    }
}

/// What is delegated of a record is the record's own: its item and revision, its
/// kind and title, its first destination, its account and its ways to
/// authenticate. A record without any is not delegated.
pub proof fn lemma_delegated(item: [u8; 16], revision: [u8; 16], m: RecordModel)
    ensures
        m.auth.len() == 0 ==> delegated(item, revision, m) is None,
        m.auth.len() > 0 ==> {
            let d = delegated(item, revision, m);
            &&& d is Some
            &&& (d->0).descriptor.item_id == item
            &&& (d->0).descriptor.revision_id == revision
            &&& (d->0).descriptor.kind == m.kind
            &&& (d->0).descriptor.title == m.human.title
            &&& (d->0).descriptor.destination == (if m.human.destinations.len() == 0 {
                None
            } else {
                Some(m.human.destinations[0].value)
            })
            &&& (d->0).descriptor.account == shown_account(m)
            &&& (d->0).auth == auths_then(m.auth, Seq::empty())
        },
{
}

/// Files are staged from their sources one for one: each source is that of the
/// file at its place, which has no bytes of its own.
pub proof fn lemma_sources(files: Seq<AttachmentModel>, sources: Seq<[u8; 16]>, i: int)
    requires
        sources_match(files, sources),
    ensures
        files.len() == sources.len(),
        0 <= i < files.len() ==> files[i].id == sources[i] && files[i].content.len() == 0,
{
}

/// A revision carries its files in streams where one of them is not empty, none
/// has its bytes in the record, and each has its stream.
pub proof fn lemma_carried(files: Seq<AttachmentModel>, streams: Seq<[u8; 16]>)
    ensures
        carried(files, streams) <==> {
            &&& exists|i: int| 0 <= i < files.len() && (#[trigger] files[i]).size != 0
            &&& forall|i: int| 0 <= i < files.len() ==> (#[trigger] files[i]).content.len() == 0
            &&& forall|i: int|
                0 <= i < files.len() ==> exists|j: int|
                    0 <= j < streams.len() && #[trigger] streams[j] == (#[trigger] files[i]).id
        },
{
    if carried(files, streams) {
        assert forall|i: int| 0 <= i < files.len() implies exists|j: int|
            0 <= j < streams.len() && #[trigger] streams[j] == (#[trigger] files[i]).id by {
            assert(streams.contains(files[i].id));
        }
    }
    if forall|i: int|
        0 <= i < files.len() ==> exists|j: int|
            0 <= j < streams.len() && #[trigger] streams[j] == (#[trigger] files[i]).id {
        assert forall|i: int| 0 <= i < files.len() implies streams.contains(
            (#[trigger] files[i]).id,
        ) by {
            let j = choose|j: int|
                0 <= j < streams.len() && #[trigger] streams[j] == files[i].id;
            assert(streams[j] == files[i].id);
        }
    }
}

} // verus!
