//! What the owner of a vault sees and edits.
use crate::bytes::{byte_len, fixed16, same, same_str};
use crate::content::{
    kind_name, logical_size, password_at, shape_valid, AttachmentModel, AuthModel, AuthRecord,
    CustomField, Destination, DestinationModel, FieldModel, HumanMetadata, HumanModel,
    LogicalRecord, MAX_FIELD, MAX_LOGICAL_RECORD, MAX_TITLE, MAX_URL, RecordKind, RecordModel,
    SourceField, SourceFieldModel,
};
use crate::errors::{AttemptError, AuthorizationError, HumanCommitError};
use crate::history::{lifecycle_named, lifecycle_of, ItemLifecycle};
use crate::migration::account_of;
use crate::ordered::same_array;
use crate::views::views;
use crate::wipe::wipe_bytes;
use crate::cbor::{
    array_head, bool_item, head_bytes, lemma_bytes_most, lemma_head_most, lemma_text_most,
    text_item,
};
use crate::record_codec::{
    attachments_then, auth_then, auths_tail, auths_then, destinations_tail, destinations_then,
    fields_then, refs_tail, refs_then, source_fields_then, strings_then,
};
use vstd::prelude::*;
use vstd::slice::slice_to_vec;
use vstd::utf8::encode_utf8;

verus! {

/// Most plaintext bytes of one chunk of a streamed file.
pub const STREAM_CHUNK: u64 = 1_048_576;

/// A password with its destination, as the owner edits it.
pub struct PasswordRecord {
    title: String,
    username: String,
    password: Vec<u8>,
    destination: String,
    notes: String,
}

/// The contents of a [`PasswordRecord`].
pub struct PasswordModel {
    pub title: Seq<char>,
    pub username: Seq<char>,
    pub password: Seq<u8>,
    pub destination: Seq<char>,
    pub notes: Seq<char>,
}

impl View for PasswordRecord {
    type V = PasswordModel;

    closed spec fn view(&self) -> PasswordModel {
        PasswordModel {
            title: self.title@,
            username: self.username@,
            password: self.password@,
            destination: self.destination@,
            notes: self.notes@,
        }
    }
}

/// Whether the parts of a password record are within their limits.
pub open spec fn password_within_limits(m: PasswordModel) -> bool {
    &&& encode_utf8(m.title).len() <= MAX_TITLE
    &&& encode_utf8(m.username).len() <= MAX_FIELD
    &&& m.password.len() <= MAX_FIELD
    &&& encode_utf8(m.destination).len() <= MAX_URL
    &&& encode_utf8(m.notes).len() <= MAX_FIELD
}

impl PasswordRecord {
    /// Validates the limits without trimming or normalizing secrets.
    pub fn new(
        title: &str,
        username: &str,
        password: &[u8],
        destination: &str,
        notes: &str,
    ) -> (r: Result<PasswordRecord, HumanCommitError>)
        ensures
            ({
                let m = PasswordModel {
                    title: title@,
                    username: username@,
                    password: password@,
                    destination: destination@,
                    notes: notes@,
                };
                &&& r is Ok <==> password_within_limits(m)
                &&& r is Ok ==> (r->Ok_0)@ == m
                &&& r is Err ==> r->Err_0 is InvalidInput
            }),
    {
        if byte_len(title) > MAX_TITLE || byte_len(username) > MAX_FIELD || password.len()
            > MAX_FIELD || byte_len(destination) > MAX_URL || byte_len(notes) > MAX_FIELD {
            return Err(HumanCommitError::InvalidInput);
        }
        Ok(
            PasswordRecord {
                title: title.to_owned(),
                username: username.to_owned(),
                password: slice_to_vec(password),
                destination: destination.to_owned(),
                notes: notes.to_owned(),
            },
        )
    }

    pub fn title(&self) -> (r: &str)
        ensures
            r@ == self@.title,
    {
        self.title.as_str()
    }

    pub fn username(&self) -> (r: &str)
        ensures
            r@ == self@.username,
    {
        self.username.as_str()
    }

    pub fn password(&self) -> (r: &[u8])
        ensures
            r@ == self@.password,
    {
        self.password.as_slice()
    }

    pub fn destination(&self) -> (r: &str)
        ensures
            r@ == self@.destination,
    {
        self.destination.as_str()
    }

    pub fn notes(&self) -> (r: &str)
        ensures
            r@ == self@.notes,
    {
        self.notes.as_str()
    }

    /// Overwrites the secret.
    pub fn wipe(&mut self)
        ensures
            final(self)@ == (PasswordModel { password: Seq::empty(), ..old(self)@ }),
        opens_invariants none
        no_unwind
    {
        wipe_bytes(&mut self.password);
    }
}

impl Drop for PasswordRecord {
    /// Erases the password when the record is released.
    fn drop(&mut self)
        ensures
            final(self)@ == (PasswordModel { password: Seq::empty(), ..old(self)@ }),
        opens_invariants none
        no_unwind
    {
        self.wipe();
    }
}

/// The logical record of a password.
pub open spec fn password_record(m: PasswordModel) -> RecordModel {
    RecordModel {
        kind: RecordKind::Password,
        human: HumanModel {
            title: m.title,
            destinations: seq![DestinationModel { label: Seq::empty(), value: m.destination }],
            tags: Seq::empty(),
            favorite: false,
            notes: m.notes,
            fields: Seq::empty(),
            source_fields: Seq::empty(),
        },
        auth: seq![
            AuthModel::Password {
                username: m.username,
                password: m.password,
                destination_refs: seq![0u16],
            },
        ],
        attachments: Seq::empty(),
    }
}

/// What the owner sees of a record without tags, fields or files.
fn plain_human(title: String, label: String, destination: String, notes: String) -> (r:
    HumanMetadata)
    ensures
        r@ == (HumanModel {
            title: title@,
            destinations: seq![DestinationModel { label: label@, value: destination@ }],
            tags: Seq::empty(),
            favorite: false,
            notes: notes@,
            fields: Seq::empty(),
            source_fields: Seq::empty(),
        }),
{
    let mut destinations: Vec<Destination> = Vec::new();
    destinations.push(Destination { label, value: destination });
    let tags: Vec<String> = Vec::new();
    let fields: Vec<CustomField> = Vec::new();
    let source_fields: Vec<SourceField> = Vec::new();
    assert(views(destinations@) =~= seq![
        DestinationModel { label: label@, value: destination@ },
    ]);
    assert(views(tags@) =~= Seq::<Seq<char>>::empty());
    assert(views(fields@) =~= Seq::<FieldModel>::empty());
    assert(views(source_fields@) =~= Seq::<SourceFieldModel>::empty());
    HumanMetadata { title, destinations, tags, favorite: false, notes, fields, source_fields }
}

/// A record without files, where it is within the limits.
fn plain_record(kind: RecordKind, human: HumanMetadata, auth: AuthRecord) -> (r: Result<
    LogicalRecord,
    HumanCommitError,
>)
    ensures
        ({
            let m = RecordModel {
                kind,
                human: human@,
                auth: seq![auth@],
                attachments: Seq::empty(),
            };
            &&& r is Ok <==> shape_valid(m)
            &&& r is Ok ==> (r->Ok_0)@ == m
            &&& r is Err ==> r->Err_0 is InvalidInput
        }),
{
    let mut auths: Vec<AuthRecord> = Vec::new();
    auths.push(auth);
    let attachments: Vec<crate::content::Attachment> = Vec::new();
    let digests: Vec<[u8; 32]> = Vec::new();
    assert(views(auths@) =~= seq![auth@]);
    assert(views(attachments@) =~= Seq::<AttachmentModel>::empty());
    LogicalRecord::new(kind, human, auths, attachments, &digests)
}

/// The logical record of a password.
pub fn logical_from_password(record: &PasswordRecord) -> (r: Result<
    LogicalRecord,
    HumanCommitError,
>)
    ensures
        r is Ok <==> shape_valid(password_record(record@)),
        r is Ok ==> (r->Ok_0)@ == password_record(record@),
        r is Err ==> r->Err_0 is InvalidInput,
{
    let human = plain_human(
        record.title.clone(),
        String::new(),
        record.destination.clone(),
        record.notes.clone(),
    );
    let mut destination_refs: Vec<u16> = Vec::new();
    destination_refs.push(0);
    let auth = AuthRecord::Password {
        username: record.username.clone(),
        password: slice_to_vec(record.password.as_slice()),
        destination_refs,
    };
    assert(auth@ == password_record(record@).auth[0]);
    assert(seq![auth@] =~= password_record(record@).auth);
    plain_record(RecordKind::Password, human, auth)
}

/// The first password at `i` or behind it.
pub open spec fn find_password(auth: Seq<AuthModel>, i: int) -> Option<(Seq<char>, Seq<u8>)>
    decreases auth.len() - i,
{
    if i < 0 || i >= auth.len() {
        None
    } else {
        match auth[i] {
            AuthModel::Password { username, password, .. } => Some((username, password)),
            _ => find_password(auth, i + 1),
        }
    }
}

/// What a logical record is as a password; a record of another kind is not
/// found, and one without a destination or a password is malformed.
pub open spec fn password_of(m: RecordModel) -> Result<PasswordModel, HumanCommitError> {
    if m.kind != RecordKind::Password {
        Err(HumanCommitError::ItemNotFound)
    } else if m.human.destinations.len() == 0 {
        Err(HumanCommitError::InvalidCommand)
    } else {
        match find_password(m.auth, 0) {
            Some((username, password)) => {
                let p = PasswordModel {
                    title: m.human.title,
                    username,
                    password,
                    destination: m.human.destinations[0].value,
                    notes: m.human.notes,
                };
                if password_within_limits(p) {
                    Ok(p)
                } else {
                    Err(HumanCommitError::InvalidInput)
                }
            },
            None => Err(HumanCommitError::InvalidCommand),
        }
    }
}

/// A logical record as a password.
pub fn password_from_logical(record: &LogicalRecord) -> (r: Result<
    PasswordRecord,
    HumanCommitError,
>)
    ensures
        match password_of(record@) {
            Ok(m) => r is Ok && (r->Ok_0)@ == m,
            Err(e) => r is Err && r->Err_0 == e,
        },
{
    if record.kind() != RecordKind::Password {
        return Err(HumanCommitError::ItemNotFound);
    }
    let human = record.human();
    assert(views(human.destinations@) == record@.human.destinations);
    if human.destinations.len() == 0 {
        return Err(HumanCommitError::InvalidCommand);
    }
    assert(record@.human.destinations[0] == human.destinations@[0]@);
    let auth = record.auth();
    let mut i: usize = 0;
    while i < auth.len()
        invariant
            i <= auth@.len(),
            views(auth@) == record@.auth,
            human@ == record@.human,
            record@.kind == RecordKind::Password,
            human.destinations@.len() > 0,
            record@.human.destinations.len() > 0,
            record@.human.destinations[0] == human.destinations@[0]@,
            find_password(record@.auth, 0) == find_password(record@.auth, i as int),
        decreases auth@.len() - i,
    {
        assert(record@.auth[i as int] == auth@[i as int]@);
        match &auth[i] {
            AuthRecord::Password { username, password, .. } => {
                return match PasswordRecord::new(
                    human.title.as_str(),
                    username.as_str(),
                    password.as_slice(),
                    human.destinations[0].value.as_str(),
                    human.notes.as_str(),
                ) {
                    Ok(p) => Ok(p),
                    Err(_) => Err(HumanCommitError::InvalidInput),
                };
            },
            _ => {},
        }
        i += 1;
    }
    Err(HumanCommitError::InvalidCommand)
}

/// The record of a password within its limits is not too large.
proof fn lemma_password_size(m: PasswordModel)
    requires
        password_within_limits(m),
    ensures
        logical_size(password_record(m)) <= MAX_LOGICAL_RECORD,
{
    let record = password_record(m);
    let h = record.human;
    let none: Seq<u8> = Seq::empty();
    reveal_strlit("v");
    reveal_strlit("kind");
    reveal_strlit("password");
    reveal_strlit("title");
    reveal_strlit("destinations");
    reveal_strlit("label");
    reveal_strlit("value");
    reveal_strlit("tags");
    reveal_strlit("favorite");
    reveal_strlit("notes");
    reveal_strlit("fields");
    reveal_strlit("source_fields");
    reveal_strlit("attachments");
    reveal_strlit("method");
    reveal_strlit("username");
    reveal_strlit("destination_refs");
    lemma_text_most("v"@);
    lemma_text_most("kind"@);
    lemma_text_most("password"@);
    lemma_text_most("title"@);
    lemma_text_most("destinations"@);
    lemma_text_most("label"@);
    lemma_text_most("value"@);
    lemma_text_most("tags"@);
    lemma_text_most("favorite"@);
    lemma_text_most("notes"@);
    lemma_text_most("fields"@);
    lemma_text_most("source_fields"@);
    lemma_text_most("attachments"@);
    lemma_text_most("method"@);
    lemma_text_most("username"@);
    lemma_text_most("destination_refs"@);
    lemma_text_most(Seq::<char>::empty());
    lemma_text_most(m.title);
    lemma_text_most(m.username);
    lemma_text_most(m.destination);
    lemma_text_most(m.notes);
    lemma_bytes_most(m.password);
    reveal(bool_item);
    assert forall|major: u8, n: u64| (#[trigger] head_bytes(major, n)).len() <= 9 by {
        lemma_head_most(major, n);
    }
    let files = text_item("attachments"@) + attachments_then(record.attachments, none);
    assert(attachments_then(record.attachments, none).len() <= 9);
    let sources = text_item("source_fields"@) + source_fields_then(h.source_fields, files);
    assert(source_fields_then(h.source_fields, files).len() <= 9 + files.len());
    let fields = text_item("fields"@) + fields_then(h.fields, sources);
    assert(fields_then(h.fields, sources).len() <= 9 + sources.len());
    let notes = text_item("favorite"@) + (bool_item(h.favorite) + (text_item("notes"@) + (text_item(
        h.notes,
    ) + fields)));
    let tags = text_item("tags"@) + strings_then(h.tags, notes);
    assert(strings_then(h.tags, notes).len() <= 9 + notes.len());
    assert(h.destinations.skip(1) =~= Seq::empty());
    reveal_with_fuel(destinations_tail, 2);
    assert(destinations_then(h.destinations, tags).len() <= 18 + text_item("label"@).len()
        + text_item(Seq::empty()).len() + text_item("value"@).len() + text_item(
        m.destination,
    ).len() + tags.len());
    let refs = seq![0u16];
    assert(refs.skip(1) =~= Seq::empty());
    reveal_with_fuel(refs_tail, 2);
    assert(refs_then(refs, none).len() <= 18);
    assert(record.auth.skip(1) =~= Seq::empty());
    reveal_with_fuel(auths_tail, 2);
    assert(auths_then(record.auth, none) == array_head(1) + auth_then(record.auth[0], none));
}

/// A password within its limits can always be written as a record, and is read
/// back from it as it was.
pub proof fn lemma_password_round_trip(m: PasswordModel)
    requires
        password_within_limits(m),
    ensures
        shape_valid(password_record(m)),
        password_of(password_record(m)) == Ok::<PasswordModel, HumanCommitError>(m),
{
    let record = password_record(m);
    assert(password_at(record.auth, 0));
    lemma_password_size(m);
}

/// The account that a delegated credential is shown with.
pub open spec fn shown_account(m: RecordModel) -> Option<Seq<char>> {
    if m.auth.len() == 0 {
        None
    } else {
        Some(account_of(m.auth[0]))
    }
}

/// The account that a delegated credential is shown with.
pub fn delegated_account(record: &LogicalRecord) -> (r: Option<String>)
    ensures
        crate::lists::opt_string(r) == shown_account(record@),
{
    let auth = record.auth();
    if auth.len() == 0 {
        return None;
    }
    assert(record@.auth[0] == auth@[0]@);
    Some(
        match &auth[0] {
            AuthRecord::Password { username, .. } => username.clone(),
            AuthRecord::Ssh { username, .. } => username.clone(),
            AuthRecord::Totp { account, .. } => account.clone(),
            AuthRecord::Token { profile_id, .. } => profile_id.clone(),
            AuthRecord::Passkey { user_name, .. } => user_name.clone(),
        },
    )
}

/// The record of a passkey that is registered with a relying party.
pub open spec fn passkey_record(
    rp_id: Seq<char>,
    origin: Seq<char>,
    user_handle: Seq<u8>,
    user_name: Seq<char>,
    display_name: Seq<char>,
    credential_id: Seq<u8>,
    private_key: [u8; 32],
    public_key: [u8; 32],
) -> RecordModel {
    RecordModel {
        kind: RecordKind::Passkey,
        human: HumanModel {
            title: "Passkey for "@ + rp_id,
            destinations: seq![DestinationModel { label: "RP origin"@, value: origin }],
            tags: Seq::empty(),
            favorite: false,
            notes: Seq::empty(),
            fields: Seq::empty(),
            source_fields: Seq::empty(),
        },
        auth: seq![
            AuthModel::Passkey {
                rp_id,
                user_handle,
                credential_id,
                cose_alg: -8i64,
                private_key,
                public_key,
                user_name,
                display_name,
                sign_count: 0,
                backup_eligible: true,
                backup_state: false,
            },
        ],
        attachments: Seq::empty(),
    }
}

/// The record of a passkey that is registered with a relying party.
pub fn register_passkey(
    rp_id: &str,
    origin: &str,
    user_handle: &[u8],
    user_name: &str,
    display_name: &str,
    credential_id: &[u8],
    private_key: [u8; 32],
    public_key: [u8; 32],
) -> (r: Result<LogicalRecord, HumanCommitError>)
    ensures
        ({
            let m = passkey_record(
                rp_id@,
                origin@,
                user_handle@,
                user_name@,
                display_name@,
                credential_id@,
                private_key,
                public_key,
            );
            &&& r is Ok <==> shape_valid(m)
            &&& r is Ok ==> (r->Ok_0)@ == m
            &&& r is Err ==> r->Err_0 is InvalidInput
        }),
{
    let mut title = "Passkey for ".to_owned();
    title.append(rp_id);
    let human = plain_human(title, "RP origin".to_owned(), origin.to_owned(), String::new());
    let auth = AuthRecord::Passkey {
        rp_id: rp_id.to_owned(),
        user_handle: slice_to_vec(user_handle),
        credential_id: slice_to_vec(credential_id),
        cose_alg: -8,
        private_key,
        public_key,
        user_name: user_name.to_owned(),
        display_name: display_name.to_owned(),
        sign_count: 0,
        backup_eligible: true,
        backup_state: false,
    };
    plain_record(RecordKind::Passkey, human, auth)
}

/// Whether one of the identifiers is the given one.
pub open spec fn lists_credential(ids: Seq<Vec<u8>>, id: Seq<u8>) -> bool {
    exists|i: int| 0 <= i < ids.len() && (#[trigger] ids[i])@ == id
}

/// Whether one of the identifiers is the given one.
fn has_credential(ids: &Vec<Vec<u8>>, id: &[u8]) -> (r: bool)
    ensures
        r == lists_credential(ids@, id@),
{
    let mut i: usize = 0;
    while i < ids.len()
        invariant
            i <= ids@.len(),
            forall|j: int| 0 <= j < i ==> (#[trigger] ids@[j])@ != id@,
        decreases ids@.len() - i,
    {
        if same(ids[i].as_slice(), id) {
            assert(ids@[i as int]@ == id@);
            return true;
        }
        i += 1;
    }
    false
}

/// Whether a record is a single passkey that may answer a request of that
/// relying party for one of those credentials. A record of another form is an
/// integrity failure, a passkey that does not fit an invalid request.
pub open spec fn passkey_answers(m: RecordModel, rp_id: Seq<char>, ids: Seq<Vec<u8>>) -> Option<
    bool,
> {
    if m.auth.len() != 1 {
        None
    } else {
        match m.auth[0] {
            AuthModel::Passkey { rp_id: own, credential_id, sign_count, .. } => Some(
                own == rp_id && lists_credential(ids, credential_id) && sign_count == 0,
            ),
            _ => None,
        }
    }
}

/// Whether a record is a single passkey that may answer a request.
pub fn passkey_usable(record: &LogicalRecord, rp_id: &str, ids: &Vec<Vec<u8>>) -> (r: Option<bool>)
    ensures
        r == passkey_answers(record@, rp_id@, ids@),
{
    let auth = record.auth();
    if auth.len() != 1 {
        return None;
    }
    assert(record@.auth[0] == auth@[0]@);
    match &auth[0] {
        AuthRecord::Passkey { rp_id: own, credential_id, sign_count, .. } => Some(
            same_str(own.as_str(), rp_id) && has_credential(ids, credential_id.as_slice())
                && *sign_count == 0,
        ),
        _ => None,
    }
}

/// The authenticator data of an assertion: the digest of the relying party,
/// the flags for presence and verification, and a counter that stays zero.
pub open spec fn assertion_bytes(rp_digest: [u8; 32], verified: bool) -> Seq<u8> {
    rp_digest@ + seq![if verified {
        5u8
    } else {
        1u8
    }, 0u8, 0u8, 0u8, 0u8]
}

/// The authenticator data of an assertion.
pub fn authenticator_data(rp_digest: &[u8; 32], verified: bool) -> (r: Vec<u8>)
    ensures
        r@ == assertion_bytes(*rp_digest, verified),
{
    let mut out: Vec<u8> = Vec::new();
    out.extend_from_slice(rp_digest.as_slice());
    out.push(
        if verified {
            5
        } else {
            1
        },
    );
    out.push(0);
    out.push(0);
    out.push(0);
    out.push(0);
    assert(out@ =~= assertion_bytes(*rp_digest, verified));
    out
}

/// Secret-free metadata of one item in the owner's catalog.
#[derive(Debug, PartialEq, Eq)]
pub struct HumanCatalogEntry {
    item_id: [u8; 16],
    kind: RecordKind,
    title: String,
    tags: Vec<String>,
    favorite: bool,
    lifecycle: ItemLifecycle,
}

/// The contents of a [`HumanCatalogEntry`].
pub struct CatalogModel {
    pub item_id: [u8; 16],
    pub kind: RecordKind,
    pub title: Seq<char>,
    pub tags: Seq<Seq<char>>,
    pub favorite: bool,
    pub lifecycle: ItemLifecycle,
}

impl View for HumanCatalogEntry {
    type V = CatalogModel;

    closed spec fn view(&self) -> CatalogModel {
        CatalogModel {
            item_id: self.item_id,
            kind: self.kind,
            title: self.title@,
            tags: views(self.tags@),
            favorite: self.favorite,
            lifecycle: self.lifecycle,
        }
    }
}

/// A copy of a list of texts.
fn copy_texts(v: &Vec<String>) -> (r: Vec<String>)
    ensures
        views(r@) == views(v@),
{
    let mut out: Vec<String> = Vec::new();
    let mut i: usize = 0;
    while i < v.len()
        invariant
            i <= v@.len(),
            out@.len() == i,
            forall|j: int| 0 <= j < i ==> (#[trigger] out@[j])@ == v@[j]@,
        decreases v@.len() - i,
    {
        out.push(v[i].clone());
        i += 1;
    }
    assert(views(out@) =~= views(v@));
    out
}

impl HumanCatalogEntry {
    /// The entry of a stored item whose visible record was opened.
    pub fn new(item_id: &[u8], status: &str, record: &LogicalRecord) -> (r: Result<
        HumanCatalogEntry,
        HumanCommitError,
    >)
        ensures
            r is Ok <==> item_id@.len() == 16 && lifecycle_named(status@) is Some,
            r is Ok ==> {
                let m = (r->Ok_0)@;
                &&& m.item_id@ == item_id@
                &&& m.kind == record@.kind
                &&& m.title == record@.human.title
                &&& m.tags == record@.human.tags
                &&& m.favorite == record@.human.favorite
                &&& Some(m.lifecycle) == lifecycle_named(status@)
            },
            r is Err ==> r->Err_0 is InvalidCommand,
    {
        match (fixed16(item_id), lifecycle_of(status)) {
            (Some(item_id), Some(lifecycle)) => Ok(
                HumanCatalogEntry {
                    item_id,
                    kind: record.kind(),
                    title: record.human().title.clone(),
                    tags: copy_texts(&record.human().tags),
                    favorite: record.human().favorite,
                    lifecycle,
                },
            ),
            _ => Err(HumanCommitError::InvalidCommand),
        }
    }

    pub fn item_id(&self) -> (r: &[u8; 16])
        ensures
            *r == self@.item_id,
    {
        &self.item_id
    }

    pub fn kind(&self) -> (r: RecordKind)
        ensures
            r == self@.kind,
    {
        self.kind
    }

    pub fn title(&self) -> (r: &str)
        ensures
            r@ == self@.title,
    {
        self.title.as_str()
    }

    pub fn tags(&self) -> (r: &[String])
        ensures
            views(r@) == self@.tags,
    {
        self.tags.as_slice()
    }

    pub fn favorite(&self) -> (r: bool)
        ensures
            r == self@.favorite,
    {
        self.favorite
    }

    pub fn lifecycle(&self) -> (r: ItemLifecycle)
        ensures
            r == self@.lifecycle,
    {
        self.lifecycle
    }
}

/// One key-bound agent generation, without private or credential material.
#[derive(Debug, PartialEq, Eq)]
pub struct HumanAgentAccess {
    subject: [u8; 16],
    generation: u64,
    label: String,
    environment: String,
    status: String,
}

/// The contents of a [`HumanAgentAccess`].
pub struct AgentAccessModel {
    pub subject: [u8; 16],
    pub generation: u64,
    pub label: Seq<char>,
    pub environment: Seq<char>,
    pub status: Seq<char>,
}

impl View for HumanAgentAccess {
    type V = AgentAccessModel;

    closed spec fn view(&self) -> AgentAccessModel {
        AgentAccessModel {
            subject: self.subject,
            generation: self.generation,
            label: self.label@,
            environment: self.environment@,
            status: self.status@,
        }
    }
}

/// Whether a stored agent status is one that there is.
pub open spec fn agent_status_known(status: Seq<char>) -> bool {
    status == "active"@ || status == "revoked"@ || status == "superseded"@
}

impl HumanAgentAccess {
    /// A stored agent generation.
    pub fn new(
        subject: &[u8],
        generation: i64,
        label: String,
        environment: String,
        status: String,
    ) -> (r: Result<HumanAgentAccess, HumanCommitError>)
        ensures
            r is Ok <==> agent_status_known(status@) && subject@.len() == 16 && generation >= 0,
            r is Ok ==> {
                let m = (r->Ok_0)@;
                &&& m.subject@ == subject@
                &&& m.generation == generation
                &&& m.label == label@
                &&& m.environment == environment@
                &&& m.status == status@
            },
            r is Err ==> r->Err_0 == (if agent_status_known(status@) && subject@.len() != 16 {
                HumanCommitError::InvalidCommand
            } else {
                HumanCommitError::Integrity
            }),
    {
        if !same_str(status.as_str(), "active") && !same_str(status.as_str(), "revoked")
            && !same_str(status.as_str(), "superseded") {
            return Err(HumanCommitError::Integrity);
        }
        match fixed16(subject) {
            Some(subject) => if generation < 0 {
                Err(HumanCommitError::Integrity)
            } else {
                Ok(
                    HumanAgentAccess {
                        subject,
                        generation: generation as u64,
                        label,
                        environment,
                        status,
                    },
                )
            },
            None => Err(HumanCommitError::InvalidCommand),
        }
    }

    pub fn subject(&self) -> (r: &[u8; 16])
        ensures
            *r == self@.subject,
    {
        &self.subject
    }

    pub fn generation(&self) -> (r: u64)
        ensures
            r == self@.generation,
    {
        self.generation
    }

    pub fn label(&self) -> (r: &str)
        ensures
            r@ == self@.label,
    {
        self.label.as_str()
    }

    pub fn environment(&self) -> (r: &str)
        ensures
            r@ == self@.environment,
    {
        self.environment.as_str()
    }

    pub fn status(&self) -> (r: &str)
        ensures
            r@ == self@.status,
    {
        self.status.as_str()
    }
}

/// One content item and whether it belongs to the common delegated set.
#[derive(Debug, PartialEq, Eq)]
pub struct HumanCredentialAccess {
    item: [u8; 16],
    title: String,
    enabled: bool,
}

/// The contents of a [`HumanCredentialAccess`].
pub struct CredentialAccessModel {
    pub item: [u8; 16],
    pub title: Seq<char>,
    pub enabled: bool,
}

impl View for HumanCredentialAccess {
    type V = CredentialAccessModel;

    closed spec fn view(&self) -> CredentialAccessModel {
        CredentialAccessModel {
            item: self.item,
            title: self.title@,
            enabled: self.enabled,
        }
    }
}

impl HumanCredentialAccess {
    /// The access of an item; none where its record has no way to authenticate.
    pub fn new(item: [u8; 16], record: &LogicalRecord, enabled: bool) -> (r: Option<
        HumanCredentialAccess,
    >)
        ensures
            r is Some <==> record@.auth.len() > 0,
            r is Some ==> (r->0)@ == (CredentialAccessModel {
                item,
                title: record@.human.title,
                enabled,
            }),
    {
        if record.auth().len() == 0 {
            None
        } else {
            Some(HumanCredentialAccess { item, title: record.human().title.clone(), enabled })
        }
    }

    pub fn item(&self) -> (r: &[u8; 16])
        ensures
            *r == self@.item,
    {
        &self.item
    }

    pub fn title(&self) -> (r: &str)
        ensures
            r@ == self@.title,
    {
        self.title.as_str()
    }

    pub fn enabled(&self) -> (r: bool)
        ensures
            r == self@.enabled,
    {
        self.enabled
    }
}

/// Secret-free authority state for the owner's access screen.
#[derive(Debug, PartialEq, Eq)]
pub struct HumanAccessOverview {
    suspended: bool,
    agents: Vec<HumanAgentAccess>,
    credentials: Vec<HumanCredentialAccess>,
}

/// The contents of a [`HumanAccessOverview`].
pub struct OverviewModel {
    pub suspended: bool,
    pub agents: Seq<AgentAccessModel>,
    pub credentials: Seq<CredentialAccessModel>,
}

impl View for HumanAccessOverview {
    type V = OverviewModel;

    closed spec fn view(&self) -> OverviewModel {
        OverviewModel {
            suspended: self.suspended,
            agents: views(self.agents@),
            credentials: views(self.credentials@),
        }
    }
}

/// Whether delegated access is suspended: it is until it was resumed. An
/// unknown stored status is an integrity failure.
pub fn delegation_suspended(status: Option<&str>) -> (r: Result<bool, HumanCommitError>)
    ensures
        match status {
            None => r == Ok::<bool, HumanCommitError>(true),
            Some(s) => if s@ == "suspended"@ {
                r == Ok::<bool, HumanCommitError>(true)
            } else if s@ == "resumed"@ {
                r == Ok::<bool, HumanCommitError>(false)
            } else {
                r is Err && r->Err_0 is Integrity
            },
        },
{
    match status {
        None => Ok(true),
        Some(s) => if same_str(s, "suspended") {
            Ok(true)
        } else if same_str(s, "resumed") {
            Ok(false)
        } else {
            Err(HumanCommitError::Integrity)
        },
    }
}

impl HumanAccessOverview {
    /// An overview of agents and credentials.
    pub fn new(
        suspended: bool,
        agents: Vec<HumanAgentAccess>,
        credentials: Vec<HumanCredentialAccess>,
    ) -> (r: HumanAccessOverview)
        ensures
            r@ == (OverviewModel {
                suspended,
                agents: views(agents@),
                credentials: views(credentials@),
            }),
    {
        HumanAccessOverview { suspended, agents, credentials }
    }

    pub fn suspended(&self) -> (r: bool)
        ensures
            r == self@.suspended,
    {
        self.suspended
    }

    pub fn agents(&self) -> (r: &[HumanAgentAccess])
        ensures
            views(r@) == self@.agents,
    {
        self.agents.as_slice()
    }

    pub fn credentials(&self) -> (r: &[HumanCredentialAccess])
        ensures
            views(r@) == self@.credentials,
    {
        self.credentials.as_slice()
    }
}

/// The generation of a new enrollment: one more than the highest, unless the
/// subject is active or the key is known already.
pub fn enrollment_generation(
    prior_status: Option<&str>,
    duplicate_key: bool,
    highest: i64,
) -> (r: Result<u64, AuthorizationError>)
    ensures
        r is Ok <==> !(prior_status is Some && prior_status->0@ == "active"@) && !duplicate_key
            && highest >= 0,
        r is Ok ==> r->Ok_0 == highest + 1,
        r is Err ==> r->Err_0 is InvalidInput,
{
    if let Some(status) = prior_status {
        if same_str(status, "active") {
            return Err(AuthorizationError::InvalidInput);
        }
    }
    if duplicate_key || highest < 0 {
        return Err(AuthorizationError::InvalidInput);
    }
    Ok(highest as u64 + 1)
}

/// The generation that a revocation is about: the active one.
pub fn revocation_generation(active: Option<i64>) -> (r: Result<u64, AuthorizationError>)
    ensures
        r is Ok <==> active is Some && active->0 >= 0,
        r is Ok ==> r->Ok_0 == active->0,
        r is Err ==> r->Err_0 is Unauthorized,
{
    match active {
        Some(n) => if n >= 0 {
            Ok(n as u64)
        } else {
            Err(AuthorizationError::Unauthorized)
        },
        None => Err(AuthorizationError::Unauthorized),
    }
}

/// Whether an opened revision is the one that was asked for: same item and
/// revision, and of the kind that its package and the item say.
pub open spec fn revision_expected(
    item: [u8; 16],
    revision: [u8; 16],
    opened_item: [u8; 16],
    opened_revision: [u8; 16],
    opened_kind: RecordKind,
    kind: RecordKind,
    expected_kind: Option<Seq<char>>,
) -> bool {
    &&& opened_item == item
    &&& opened_revision == revision
    &&& kind == opened_kind
    &&& expected_kind is None || expected_kind->0 == kind_name(kind)
}

/// Whether an opened revision is the one that was asked for.
pub fn check_revision(
    item: &[u8; 16],
    revision: &[u8; 16],
    opened_item: &[u8; 16],
    opened_revision: &[u8; 16],
    opened_kind: RecordKind,
    record: &LogicalRecord,
    expected_kind: Option<&str>,
) -> (r: Result<(), HumanCommitError>)
    ensures
        r == (if revision_expected(
            *item,
            *revision,
            *opened_item,
            *opened_revision,
            opened_kind,
            record@.kind,
            crate::cbor::opt_text(expected_kind),
        ) {
            Ok::<(), HumanCommitError>(())
        } else {
            Err(HumanCommitError::InvalidCommand)
        }),
{
    let kind_fits = match expected_kind {
        Some(name) => same_str(name, record.kind().name()),
        None => true,
    };
    if same_array(opened_item, item) && same_array(opened_revision, revision) && record.kind()
        == opened_kind && kind_fits {
        Ok(())
    } else {
        Err(HumanCommitError::InvalidCommand)
    }
}

/// Whether so many files are stored as the record has.
pub fn check_file_count(record: &LogicalRecord, stored: i64) -> (r: Result<(), HumanCommitError>)
    ensures
        r == (if stored == record@.attachments.len() {
            Ok::<(), HumanCommitError>(())
        } else {
            Err(HumanCommitError::InvalidCommand)
        }),
{
    let files: usize = record.attachments().len();
    assert(record@.attachments.len() == files);
    if stored >= 0 && stored as u64 == files as u64 {
        Ok(())
    } else {
        Err(HumanCommitError::InvalidCommand)
    }
}

/// Whether an attempt belongs to this vault on this device.
pub fn check_attempt_access(
    same_path: bool,
    own_vault: &[u8; 16],
    vault: &[u8; 16],
    own_device: &[u8; 16],
    device: &[u8; 16],
) -> (r: Result<(), AttemptError>)
    ensures
        r == (if same_path && *own_vault == *vault && *own_device == *device {
            Ok::<(), AttemptError>(())
        } else {
            Err(AttemptError::Integrity)
        }),
{
    if same_path && same_array(own_vault, vault) && same_array(own_device, device) {
        Ok(())
    } else {
        Err(AttemptError::Integrity)
    }
}

/// The next chunk of a file that is sealed: how many bytes, and whether it is
/// the last. An empty file has one empty chunk.
pub fn next_chunk(remaining: u64) -> (r: (u64, bool))
    ensures
        r.0 == (if remaining < STREAM_CHUNK {
            remaining
        } else {
            STREAM_CHUNK
        }),
        r.1 == (remaining <= STREAM_CHUNK),
{
    if remaining < STREAM_CHUNK {
        (remaining, true)
    } else {
        (STREAM_CHUNK, remaining == STREAM_CHUNK)
    }
}

/// How many chunks a file of that size is sealed in.
pub open spec fn chunk_count(size: int) -> int
    decreases size,
{
    if size <= STREAM_CHUNK {
        1
    } else {
        1 + chunk_count(size - STREAM_CHUNK)
    }
}

/// The chunks of a file are full but for the last, which is not empty unless
/// the file is.
pub proof fn lemma_chunk_count(size: int)
    requires
        size >= 0,
    ensures
        chunk_count(size) == (if size == 0 {
            1
        } else {
            (size + STREAM_CHUNK - 1) / (STREAM_CHUNK as int)
        }),
    decreases size,
{
    if size > STREAM_CHUNK {
        lemma_chunk_count(size - STREAM_CHUNK);
    }
}

/// A stored stream as it is read back: chunk by chunk in order, none missing
/// and none left over.
pub struct StreamCheck {
    pub count: i64,
    pub seen: i64,
    pub total: u64,
}

impl StreamCheck {
    /// A stream of so many chunks of which none was read yet.
    pub fn new(count: i64) -> (r: StreamCheck)
        ensures
            r.count == count,
            r.seen == 0,
            r.total == 0,
    {
        StreamCheck { count, seen: 0, total: 0 }
    }

    /// Whether the stored chunk is the next one; tells whether it is the last.
    pub fn expect(&self, index: i64) -> (r: Result<bool, HumanCommitError>)
        ensures
            index == self.seen ==> r == Ok::<bool, HumanCommitError>(self.seen + 1 == self.count),
            index != self.seen ==> r is Err && r->Err_0 is InvalidCommand,
    {
        if index != self.seen {
            return Err(HumanCommitError::InvalidCommand);
        }
        Ok(self.seen < self.count && self.count - 1 == self.seen)
    }

    /// Counts an opened chunk.
    pub fn add_chunk(&mut self, length: usize) -> (r: Result<(), HumanCommitError>)
        ensures
            r is Ok <==> old(self).total + length <= u64::MAX && old(self).seen < i64::MAX,
            r is Ok ==> final(self).total == old(self).total + length && final(self).seen
                == old(self).seen + 1,
            r is Err ==> r->Err_0 is InvalidInput && *final(self) == *old(self),
            final(self).count == old(self).count,
    {
        if length as u64 > u64::MAX - self.total || self.seen == i64::MAX {
            return Err(HumanCommitError::InvalidInput);
        }
        self.total = self.total + length as u64;
        self.seen = self.seen + 1;
        Ok(())
    }

    /// Whether the whole stream was read and is what the descriptor says.
    pub fn finish(&self, size: u64, sha256: &[u8; 32], digest: &[u8; 32]) -> (r: Result<
        (),
        HumanCommitError,
    >)
        ensures
            r == (if self.seen == self.count && self.total == size && *digest == *sha256 {
                Ok::<(), HumanCommitError>(())
            } else {
                Err(HumanCommitError::InvalidCommand)
            }),
    {
        if self.seen == self.count && self.total == size && same_array(digest, sha256) {
            Ok(())
        } else {
            Err(HumanCommitError::InvalidCommand)
        }
    }
}

/// A password becomes a record that shows its title, its notes and its one
/// destination, and that authenticates there with its user name and password.
pub proof fn lemma_password_shown(m: PasswordModel)
    ensures
        ({
            let r = password_record(m);
            &&& r.kind is Password
            &&& r.human.title == m.title
            &&& r.human.notes == m.notes
            &&& r.human.destinations.len() == 1
            &&& r.human.destinations[0].value == m.destination
            &&& r.human.destinations[0].label.len() == 0
            &&& r.human.tags.len() == 0 && !r.human.favorite && r.human.fields.len() == 0
                && r.human.source_fields.len() == 0 && r.attachments.len() == 0
            &&& r.auth.len() == 1 && r.auth[0] is Password
            &&& r.auth[0]->Password_username == m.username
            &&& r.auth[0]->password == m.password
            &&& r.auth[0]->Password_destination_refs == seq![0u16]
            &&& shown_account(r) == Some(m.username)
        }),
{
}

/// The password of a record is its first one, with its first destination; a
/// record of another kind has none.
pub proof fn lemma_password_read(m: RecordModel, i: int)
    requires
        0 <= i < m.auth.len(),
        m.auth[i] is Password,
        forall|j: int| 0 <= j < i ==> !(#[trigger] m.auth[j] is Password),
    ensures
        m.kind != RecordKind::Password ==> password_of(m) == Err::<PasswordModel, _>(
            HumanCommitError::ItemNotFound,
        ),
        m.kind == RecordKind::Password && m.human.destinations.len() == 0 ==> password_of(m)
            == Err::<PasswordModel, _>(HumanCommitError::InvalidCommand),
        password_of(m) matches Ok(p) ==> {
            &&& p.title == m.human.title
            &&& p.notes == m.human.notes
            &&& p.destination == m.human.destinations[0].value
            &&& p.username == m.auth[i]->Password_username
            &&& p.password == m.auth[i]->password
        },
{
    lemma_first_password(m.auth, i, 0);
}

/// The first password is found.
proof fn lemma_first_password(auth: Seq<AuthModel>, i: int, from: int)
    requires
        0 <= from <= i < auth.len(),
        auth[i] is Password,
        forall|j: int| 0 <= j < i ==> !(#[trigger] auth[j] is Password),
    ensures
        find_password(auth, from) == Some((auth[i]->Password_username, auth[i]->password)),
    decreases i - from,
{
    if from < i {
        assert(!(auth[from] is Password));
        lemma_first_password(auth, i, from + 1);
    }
}

/// The account that a record shows is that of its first way to authenticate.
pub proof fn lemma_shown_account(m: RecordModel)
    ensures
        m.auth.len() == 0 ==> shown_account(m) is None,
        m.auth.len() > 0 ==> match m.auth[0] {
            AuthModel::Password { username, .. } => shown_account(m) == Some(username),
            AuthModel::Ssh { username, .. } => shown_account(m) == Some(username),
            AuthModel::Totp { account, .. } => shown_account(m) == Some(account),
            AuthModel::Token { profile_id, .. } => shown_account(m) == Some(profile_id),
            AuthModel::Passkey { user_name, .. } => shown_account(m) == Some(user_name),
        },
{
}

/// A passkey answers the relying party that it was registered for where its
/// credential is listed, and no other; it keeps its keys and its user.
pub proof fn lemma_passkey_registered(
    rp_id: Seq<char>,
    origin: Seq<char>,
    user_handle: Seq<u8>,
    user_name: Seq<char>,
    display_name: Seq<char>,
    credential_id: Seq<u8>,
    private_key: [u8; 32],
    public_key: [u8; 32],
    asked: Seq<char>,
    ids: Seq<Vec<u8>>,
)
    ensures
        ({
            let m = passkey_record(
                rp_id,
                origin,
                user_handle,
                user_name,
                display_name,
                credential_id,
                private_key,
                public_key,
            );
            let key = m.auth[0];
            &&& m.kind is Passkey
            &&& m.auth.len() == 1 && key is Passkey
            &&& key->rp_id == rp_id
            &&& key->user_handle == user_handle
            &&& key->credential_id == credential_id
            &&& key->Passkey_private_key == private_key
            &&& key->Passkey_public_key == public_key
            &&& key->user_name == user_name
            &&& key->display_name == display_name
            &&& key->cose_alg == -8
            &&& key->sign_count == 0
            &&& key->backup_eligible && !key->backup_state
            &&& m.human.title == "Passkey for "@ + rp_id
            &&& m.human.destinations == seq![
                DestinationModel { label: "RP origin"@, value: origin },
            ]
            &&& shown_account(m) == Some(user_name)
            &&& passkey_answers(m, asked, ids) == Some(
                asked == rp_id && exists|i: int|
                    0 <= i < ids.len() && (#[trigger] ids[i])@ == credential_id,
            )
        }),
{
}

/// What a passkey signs begins with the digest of its relying party and says
/// that the user was there, and whether they were verified; nothing is counted.
pub proof fn lemma_assertion(rp_digest: [u8; 32])
    ensures
        assertion_bytes(rp_digest, true).len() == 37,
        assertion_bytes(rp_digest, true).take(32) == rp_digest@,
        assertion_bytes(rp_digest, false).take(32) == rp_digest@,
        assertion_bytes(rp_digest, true)[32] == 5,
        assertion_bytes(rp_digest, false)[32] == 1,
        forall|i: int|
            33 <= i < 37 ==> #[trigger] assertion_bytes(rp_digest, true)[i] == 0
                && assertion_bytes(rp_digest, false)[i] == 0,
        assertion_bytes(rp_digest, false).len() == 37,
{
    assert(assertion_bytes(rp_digest, true).take(32) =~= rp_digest@);
    assert(assertion_bytes(rp_digest, false).take(32) =~= rp_digest@);
}

/// A revision that was opened is used only where it is the one that was asked
/// for: of this item, under this identifier, and of its kind.
pub proof fn lemma_revision_asked_for(
    item: [u8; 16],
    revision: [u8; 16],
    opened_item: [u8; 16],
    opened_revision: [u8; 16],
    opened_kind: RecordKind,
    kind: RecordKind,
    expected: Seq<char>,
)
    ensures
        revision_expected(item, revision, opened_item, opened_revision, opened_kind, kind, None)
            <==> item == opened_item && revision == opened_revision && kind == opened_kind,
        revision_expected(
            item,
            revision,
            opened_item,
            opened_revision,
            opened_kind,
            kind,
            Some(expected),
        ) <==> item == opened_item && revision == opened_revision && kind == opened_kind
            && expected == kind_name(kind),
{
}

/// The limits of a password record.
pub proof fn lemma_password_limits(m: PasswordModel)
    ensures
        password_within_limits(m) <==> {
            &&& encode_utf8(m.title).len() <= 1024
            &&& encode_utf8(m.username).len() <= 1_048_576
            &&& m.password.len() <= 1_048_576
            &&& encode_utf8(m.destination).len() <= 8192
            &&& encode_utf8(m.notes).len() <= 1_048_576
        },
{
}

/// The statuses of an agent.
pub proof fn lemma_agent_status(status: Seq<char>)
    ensures
        agent_status_known(status) <==> status == "active"@ || status == "revoked"@ || status
            == "superseded"@,
{
}

} // verus!
