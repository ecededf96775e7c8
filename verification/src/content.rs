//! Logical records: their parts, limits and validation.
use crate::bytes::{byte_len, same, same_str};
use crate::cbor::{
    array_head, bytes_item, lemma_array, lemma_array16, lemma_bytes_within, lemma_head_len,
    lemma_map, lemma_null, lemma_text_within, lemma_uint, map_head, opt_view, optional_bytes_item,
    take_array, take_bytes, take_key, take_map_of, take_optional_bytes, take_uint, text_item,
    uint_item, Reader, Writer, MAP,
};
use crate::errors::HumanCommitError;
use crate::record_codec::{
    attachments_tail, auths_then, human_then, put_auths, put_human, read_optional_bytes,
    take_auths, take_human, without_content,
};
use crate::views::views;
use crate::wipe::{wipe_bytes, wipe_key, wipe_text};
use crate::lists::{after, lemma_optional_bytes, next_bytes, next_key, next_uint};
use vstd::prelude::*;
use vstd::slice::slice_to_vec;
use vstd::utf8::{encode_utf8, valid_utf8};

verus! {

/// Largest encoded record, in bytes.
pub const MAX_LOGICAL_RECORD: usize = 16_777_216;

/// Longest title, label, name or tag, in bytes.
pub const MAX_TITLE: usize = 1024;

/// Longest destination, in bytes.
pub const MAX_URL: usize = 8192;

/// Longest field value, in bytes.
pub const MAX_FIELD: usize = 1_048_576;

/// Most custom fields of a record.
pub const MAX_FIELDS: usize = 256;

/// Most destinations of a record.
pub const MAX_DESTINATIONS: usize = 256;

/// Most tags of a record.
pub const MAX_TAGS: usize = 1024;

/// Largest attachment, in bytes.
pub const MAX_FILE: u64 = 17_179_869_184;

/// What a record is.
#[derive(Clone, Copy, Debug, PartialEq, Eq, Structural)]
pub enum RecordKind {
    Password,
    Totp,
    Passkey,
    Ssh,
    Token,
    Note,
    File,
}

/// The stored name of a record kind.
pub open spec fn kind_name(kind: RecordKind) -> Seq<char> {
    match kind {
        RecordKind::Password => "password"@,
        RecordKind::Totp => "totp"@,
        RecordKind::Passkey => "passkey"@,
        RecordKind::Ssh => "ssh"@,
        RecordKind::Token => "token"@,
        RecordKind::Note => "note"@,
        RecordKind::File => "file"@,
    }
}

/// Different kinds have different names.
pub proof fn lemma_kind_names_differ(a: RecordKind, b: RecordKind)
    ensures
        kind_name(a) == kind_name(b) ==> a == b,
{
    reveal_strlit("password");
    reveal_strlit("totp");
    reveal_strlit("passkey");
    reveal_strlit("ssh");
    reveal_strlit("token");
    reveal_strlit("note");
    reveal_strlit("file");
    if kind_name(a) == kind_name(b) {
        assert(kind_name(a).len() == kind_name(b).len());
        assert(kind_name(a)[0] == kind_name(b)[0]);
        assert(kind_name(a)[1] == kind_name(b)[1]);
    }
}

impl RecordKind {
    /// The stored name of this kind.
    pub fn name(self) -> (r: &'static str)
        ensures
            r@ == kind_name(self),
    {
        match self {
            RecordKind::Password => "password",
            RecordKind::Totp => "totp",
            RecordKind::Passkey => "passkey",
            RecordKind::Ssh => "ssh",
            RecordKind::Token => "token",
            RecordKind::Note => "note",
            RecordKind::File => "file",
        }
    }

    /// The kind stored under a name.
    pub fn from_name(value: &str) -> (r: Option<RecordKind>)
        ensures
            forall|k: RecordKind| value@ == #[trigger] kind_name(k) ==> r == Some(k),
            r is Some ==> value@ == kind_name(r->0),
    {
        proof {
            assert forall|a: RecordKind, b: RecordKind| #[trigger]
                kind_name(a) == #[trigger] kind_name(b) implies a == b by {
                lemma_kind_names_differ(a, b);
            }
        }
        if same_str(value, "password") {
            assert(value@ == kind_name(RecordKind::Password));
            Some(RecordKind::Password)
        } else if same_str(value, "totp") {
            assert(value@ == kind_name(RecordKind::Totp));
            Some(RecordKind::Totp)
        } else if same_str(value, "passkey") {
            assert(value@ == kind_name(RecordKind::Passkey));
            Some(RecordKind::Passkey)
        } else if same_str(value, "ssh") {
            assert(value@ == kind_name(RecordKind::Ssh));
            Some(RecordKind::Ssh)
        } else if same_str(value, "token") {
            assert(value@ == kind_name(RecordKind::Token));
            Some(RecordKind::Token)
        } else if same_str(value, "note") {
            assert(value@ == kind_name(RecordKind::Note));
            Some(RecordKind::Note)
        } else if same_str(value, "file") {
            assert(value@ == kind_name(RecordKind::File));
            Some(RecordKind::File)
        } else {
            None
        }
    }
}

/// A labelled place where a credential is used.
#[derive(Debug, PartialEq, Eq)]
pub struct Destination {
    pub label: String,
    pub value: String,
}

/// The contents of a [`Destination`].
pub struct DestinationModel {
    pub label: Seq<char>,
    pub value: Seq<char>,
}

impl View for Destination {
    type V = DestinationModel;

    open spec fn view(&self) -> DestinationModel {
        DestinationModel { label: self.label@, value: self.value@ }
    }
}

/// The value of a custom field.
#[derive(Debug, PartialEq, Eq)]
pub enum LogicalValue {
    Text(String),
    Bytes(Vec<u8>),
}

/// The contents of a [`LogicalValue`].
pub enum ValueModel {
    Text(Seq<char>),
    Bytes(Seq<u8>),
}

impl View for LogicalValue {
    type V = ValueModel;

    open spec fn view(&self) -> ValueModel {
        match self {
            LogicalValue::Text(v) => ValueModel::Text(v@),
            LogicalValue::Bytes(v) => ValueModel::Bytes(v@),
        }
    }
}

/// A field that the owner added.
#[derive(Debug, PartialEq, Eq)]
pub struct CustomField {
    pub id: [u8; 16],
    pub label: String,
    pub value: LogicalValue,
    pub concealed: bool,
}

/// The contents of a [`CustomField`].
pub struct FieldModel {
    pub id: [u8; 16],
    pub label: Seq<char>,
    pub value: ValueModel,
    pub concealed: bool,
}

impl View for CustomField {
    type V = FieldModel;

    open spec fn view(&self) -> FieldModel {
        FieldModel {
            id: self.id,
            label: self.label@,
            value: self.value@,
            concealed: self.concealed,
        }
    }
}

/// How the value of a source field is encoded.
#[derive(Clone, Copy, Debug, PartialEq, Eq, Structural)]
pub enum SourceEncoding {
    Utf8,
    Json,
    Bytes,
}

/// The stored name of a source encoding.
pub open spec fn source_encoding_name(encoding: SourceEncoding) -> Seq<char> {
    match encoding {
        SourceEncoding::Utf8 => "utf8"@,
        SourceEncoding::Json => "json"@,
        SourceEncoding::Bytes => "bytes"@,
    }
}

/// Different source encodings have different names.
pub proof fn lemma_source_encoding_names_differ(a: SourceEncoding, b: SourceEncoding)
    ensures
        source_encoding_name(a) == source_encoding_name(b) ==> a == b,
{
    reveal_strlit("utf8");
    reveal_strlit("json");
    reveal_strlit("bytes");
    if source_encoding_name(a) == source_encoding_name(b) {
        assert(source_encoding_name(a)[0] == source_encoding_name(b)[0]);
    }
}

impl SourceEncoding {
    /// The stored name of this encoding.
    pub fn name(self) -> (r: &'static str)
        ensures
            r@ == source_encoding_name(self),
    {
        match self {
            SourceEncoding::Utf8 => "utf8",
            SourceEncoding::Json => "json",
            SourceEncoding::Bytes => "bytes",
        }
    }

    /// The encoding stored under a name.
    pub fn parse(value: &str) -> (r: Option<SourceEncoding>)
        ensures
            forall|k: SourceEncoding| value@ == #[trigger] source_encoding_name(k) ==> r == Some(k),
            r is Some ==> value@ == source_encoding_name(r->0),
    {
        proof {
            assert forall|a: SourceEncoding, b: SourceEncoding| #[trigger]
                source_encoding_name(a) == #[trigger] source_encoding_name(b) implies a == b by {
                lemma_source_encoding_names_differ(a, b);
            }
        }
        if same_str(value, "utf8") {
            assert(value@ == source_encoding_name(SourceEncoding::Utf8));
            Some(SourceEncoding::Utf8)
        } else if same_str(value, "json") {
            assert(value@ == source_encoding_name(SourceEncoding::Json));
            Some(SourceEncoding::Json)
        } else if same_str(value, "bytes") {
            assert(value@ == source_encoding_name(SourceEncoding::Bytes));
            Some(SourceEncoding::Bytes)
        } else {
            None
        }
    }
}

/// A field kept from an import source.
#[derive(Debug, PartialEq, Eq)]
pub struct SourceField {
    pub path: String,
    pub encoding: SourceEncoding,
    pub value: Vec<u8>,
}

/// The contents of a [`SourceField`].
pub struct SourceFieldModel {
    pub path: Seq<char>,
    pub encoding: SourceEncoding,
    pub value: Seq<u8>,
}

impl View for SourceField {
    type V = SourceFieldModel;

    open spec fn view(&self) -> SourceFieldModel {
        SourceFieldModel { path: self.path@, encoding: self.encoding, value: self.value@ }
    }
}

/// What the owner sees of a record.
#[derive(Debug, PartialEq, Eq)]
pub struct HumanMetadata {
    pub title: String,
    pub destinations: Vec<Destination>,
    pub tags: Vec<String>,
    pub favorite: bool,
    pub notes: String,
    pub fields: Vec<CustomField>,
    pub source_fields: Vec<SourceField>,
}

/// The contents of a [`HumanMetadata`].
pub struct HumanModel {
    pub title: Seq<char>,
    pub destinations: Seq<DestinationModel>,
    pub tags: Seq<Seq<char>>,
    pub favorite: bool,
    pub notes: Seq<char>,
    pub fields: Seq<FieldModel>,
    pub source_fields: Seq<SourceFieldModel>,
}

impl View for HumanMetadata {
    type V = HumanModel;

    open spec fn view(&self) -> HumanModel {
        HumanModel {
            title: self.title@,
            destinations: views(self.destinations@),
            tags: views(self.tags@),
            favorite: self.favorite,
            notes: self.notes@,
            fields: views(self.fields@),
            source_fields: views(self.source_fields@),
        }
    }
}

/// The hash of a time-based one-time password.
#[derive(Clone, Copy, Debug, PartialEq, Eq, Structural)]
pub enum TotpAlgorithm {
    Sha1,
    Sha256,
    Sha512,
}

/// The stored name of a one-time-password hash.
pub open spec fn totp_algorithm_name(algorithm: TotpAlgorithm) -> Seq<char> {
    match algorithm {
        TotpAlgorithm::Sha1 => "SHA1"@,
        TotpAlgorithm::Sha256 => "SHA256"@,
        TotpAlgorithm::Sha512 => "SHA512"@,
    }
}

/// Different one-time-password hashes have different names.
pub proof fn lemma_totp_algorithm_names_differ(a: TotpAlgorithm, b: TotpAlgorithm)
    ensures
        totp_algorithm_name(a) == totp_algorithm_name(b) ==> a == b,
{
    reveal_strlit("SHA1");
    reveal_strlit("SHA256");
    reveal_strlit("SHA512");
    if totp_algorithm_name(a) == totp_algorithm_name(b) {
        assert(totp_algorithm_name(a)[3] == totp_algorithm_name(b)[3]);
    }
}

impl TotpAlgorithm {
    /// The stored name of this hash.
    pub fn name(self) -> (r: &'static str)
        ensures
            r@ == totp_algorithm_name(self),
    {
        match self {
            TotpAlgorithm::Sha1 => "SHA1",
            TotpAlgorithm::Sha256 => "SHA256",
            TotpAlgorithm::Sha512 => "SHA512",
        }
    }

    /// The hash stored under a name.
    pub fn parse(value: &str) -> (r: Option<TotpAlgorithm>)
        ensures
            forall|k: TotpAlgorithm| value@ == #[trigger] totp_algorithm_name(k) ==> r == Some(k),
            r is Some ==> value@ == totp_algorithm_name(r->0),
    {
        proof {
            assert forall|a: TotpAlgorithm, b: TotpAlgorithm| #[trigger]
                totp_algorithm_name(a) == #[trigger] totp_algorithm_name(b) implies a == b by {
                lemma_totp_algorithm_names_differ(a, b);
            }
        }
        if same_str(value, "SHA1") {
            assert(value@ == totp_algorithm_name(TotpAlgorithm::Sha1));
            Some(TotpAlgorithm::Sha1)
        } else if same_str(value, "SHA256") {
            assert(value@ == totp_algorithm_name(TotpAlgorithm::Sha256));
            Some(TotpAlgorithm::Sha256)
        } else if same_str(value, "SHA512") {
            assert(value@ == totp_algorithm_name(TotpAlgorithm::Sha512));
            Some(TotpAlgorithm::Sha512)
        } else {
            None
        }
    }
}

/// The container of an SSH private key.
#[derive(Clone, Copy, Debug, PartialEq, Eq, Structural)]
pub enum PrivateKeyFormat {
    OpenSsh,
    Pkcs8,
}

/// The stored name of a private key format.
pub open spec fn private_key_format_name(format: PrivateKeyFormat) -> Seq<char> {
    match format {
        PrivateKeyFormat::OpenSsh => "openssh"@,
        PrivateKeyFormat::Pkcs8 => "pkcs8"@,
    }
}

/// Different private key formats have different names.
pub proof fn lemma_private_key_format_names_differ(a: PrivateKeyFormat, b: PrivateKeyFormat)
    ensures
        private_key_format_name(a) == private_key_format_name(b) ==> a == b,
{
    reveal_strlit("openssh");
    reveal_strlit("pkcs8");
    if private_key_format_name(a) == private_key_format_name(b) {
        assert(private_key_format_name(a)[0] == private_key_format_name(b)[0]);
    }
}

impl PrivateKeyFormat {
    /// The stored name of this format.
    pub fn name(self) -> (r: &'static str)
        ensures
            r@ == private_key_format_name(self),
    {
        match self {
            PrivateKeyFormat::OpenSsh => "openssh",
            PrivateKeyFormat::Pkcs8 => "pkcs8",
        }
    }

    /// The format stored under a name.
    pub fn parse(value: &str) -> (r: Option<PrivateKeyFormat>)
        ensures
            forall|k: PrivateKeyFormat|
                value@ == #[trigger] private_key_format_name(k) ==> r == Some(k),
            r is Some ==> value@ == private_key_format_name(r->0),
    {
        proof {
            assert forall|a: PrivateKeyFormat, b: PrivateKeyFormat| #[trigger]
                private_key_format_name(a) == #[trigger] private_key_format_name(b) implies a
                == b by {
                lemma_private_key_format_names_differ(a, b);
            }
        }
        if same_str(value, "openssh") {
            assert(value@ == private_key_format_name(PrivateKeyFormat::OpenSsh));
            Some(PrivateKeyFormat::OpenSsh)
        } else if same_str(value, "pkcs8") {
            assert(value@ == private_key_format_name(PrivateKeyFormat::Pkcs8));
            Some(PrivateKeyFormat::Pkcs8)
        } else {
            None
        }
    }
}

/// One way to authenticate.
#[allow(inconsistent_fields)]
#[derive(Debug, PartialEq, Eq)]
pub enum AuthRecord {
    Password { username: String, password: Vec<u8>, destination_refs: Vec<u16> },
    Totp {
        secret: Vec<u8>,
        algorithm: TotpAlgorithm,
        digits: u8,
        period: u16,
        t0: u64,
        issuer: String,
        account: String,
        destination_refs: Vec<u16>,
    },
    Passkey {
        rp_id: String,
        user_handle: Vec<u8>,
        credential_id: Vec<u8>,
        cose_alg: i64,
        private_key: [u8; 32],
        public_key: [u8; 32],
        user_name: String,
        display_name: String,
        sign_count: u32,
        backup_eligible: bool,
        backup_state: bool,
    },
    Ssh {
        private_format: PrivateKeyFormat,
        private_key: Vec<u8>,
        public_key: Vec<u8>,
        username: String,
        destination_refs: Vec<u16>,
        passphrase: Option<Vec<u8>>,
    },
    Token {
        secret: Vec<u8>,
        provider: String,
        profile_id: String,
        destination_refs: Vec<u16>,
        expires_at: Option<i64>,
    },
}

/// The contents of an [`AuthRecord`].
#[allow(inconsistent_fields)]
pub enum AuthModel {
    Password { username: Seq<char>, password: Seq<u8>, destination_refs: Seq<u16> },
    Totp {
        secret: Seq<u8>,
        algorithm: TotpAlgorithm,
        digits: u8,
        period: u16,
        t0: u64,
        issuer: Seq<char>,
        account: Seq<char>,
        destination_refs: Seq<u16>,
    },
    Passkey {
        rp_id: Seq<char>,
        user_handle: Seq<u8>,
        credential_id: Seq<u8>,
        cose_alg: i64,
        private_key: [u8; 32],
        public_key: [u8; 32],
        user_name: Seq<char>,
        display_name: Seq<char>,
        sign_count: u32,
        backup_eligible: bool,
        backup_state: bool,
    },
    Ssh {
        private_format: PrivateKeyFormat,
        private_key: Seq<u8>,
        public_key: Seq<u8>,
        username: Seq<char>,
        destination_refs: Seq<u16>,
        passphrase: Option<Seq<u8>>,
    },
    Token {
        secret: Seq<u8>,
        provider: Seq<char>,
        profile_id: Seq<char>,
        destination_refs: Seq<u16>,
        expires_at: Option<i64>,
    },
}

/// The bytes of an optional vector.
pub open spec fn opt_vec(value: Option<Vec<u8>>) -> Option<Seq<u8>> {
    match value {
        Some(v) => Some(v@),
        None => None,
    }
}

impl View for AuthRecord {
    type V = AuthModel;

    open spec fn view(&self) -> AuthModel {
        match self {
            AuthRecord::Password { username, password, destination_refs } => AuthModel::Password {
                username: username@,
                password: password@,
                destination_refs: destination_refs@,
            },
            AuthRecord::Totp {
                secret,
                algorithm,
                digits,
                period,
                t0,
                issuer,
                account,
                destination_refs,
            } => AuthModel::Totp {
                secret: secret@,
                algorithm: *algorithm,
                digits: *digits,
                period: *period,
                t0: *t0,
                issuer: issuer@,
                account: account@,
                destination_refs: destination_refs@,
            },
            AuthRecord::Passkey {
                rp_id,
                user_handle,
                credential_id,
                cose_alg,
                private_key,
                public_key,
                user_name,
                display_name,
                sign_count,
                backup_eligible,
                backup_state,
            } => AuthModel::Passkey {
                rp_id: rp_id@,
                user_handle: user_handle@,
                credential_id: credential_id@,
                cose_alg: *cose_alg,
                private_key: *private_key,
                public_key: *public_key,
                user_name: user_name@,
                display_name: display_name@,
                sign_count: *sign_count,
                backup_eligible: *backup_eligible,
                backup_state: *backup_state,
            },
            AuthRecord::Ssh {
                private_format,
                private_key,
                public_key,
                username,
                destination_refs,
                passphrase,
            } => AuthModel::Ssh {
                private_format: *private_format,
                private_key: private_key@,
                public_key: public_key@,
                username: username@,
                destination_refs: destination_refs@,
                passphrase: opt_vec(*passphrase),
            },
            AuthRecord::Token { secret, provider, profile_id, destination_refs, expires_at } =>
                AuthModel::Token {
                secret: secret@,
                provider: provider@,
                profile_id: profile_id@,
                destination_refs: destination_refs@,
                expires_at: *expires_at,
            },
        }
    }
}

/// A file that belongs to a record.
#[derive(Debug, PartialEq, Eq)]
pub struct Attachment {
    id: [u8; 16],
    name: String,
    mime: String,
    size: u64,
    sha256: [u8; 32],
    content: Vec<u8>,
}

/// The contents of an [`Attachment`].
pub struct AttachmentModel {
    pub id: [u8; 16],
    pub name: Seq<char>,
    pub mime: Seq<char>,
    pub size: u64,
    pub sha256: [u8; 32],
    pub content: Seq<u8>,
}

impl View for Attachment {
    type V = AttachmentModel;

    closed spec fn view(&self) -> AttachmentModel {
        AttachmentModel {
            id: self.id,
            name: self.name@,
            mime: self.mime@,
            size: self.size,
            sha256: self.sha256,
            content: self.content@,
        }
    }
}

/// Whether a name, a type and a size are within the attachment limits.
pub open spec fn attachment_within_limits(name: Seq<char>, mime: Seq<char>, size: u64) -> bool {
    &&& encode_utf8(name).len() <= MAX_TITLE
    &&& encode_utf8(mime).len() <= MAX_TITLE
    &&& size <= MAX_FILE
}

impl Attachment {
    /// Constructs an attachment from its complete bytes and their digest,
    /// without treating its Unicode name as a path.
    pub fn new(id: [u8; 16], name: &str, mime: &str, content: &[u8],
        digest: [u8; 32]) -> (r: Result<
        Attachment,
        HumanCommitError,
    >)
        ensures
            r is Ok <==> attachment_within_limits(name@, mime@, content@.len() as u64),
            r is Ok ==> (r->Ok_0)@ == (AttachmentModel {
                id,
                name: name@,
                mime: mime@,
                size: content@.len() as u64,
                sha256: digest,
                content: content@,
            }),
            r is Err ==> r->Err_0 is InvalidInput,
    {
        Attachment::from_parts(id, name, mime, content.len() as u64, digest, content, digest)
    }

    /// Validates external metadata against the complete bytes and the digest
    /// computed from them; mismatches are never truncated.
    pub fn from_parts(
        id: [u8; 16],
        name: &str,
        mime: &str,
        size: u64,
        sha256: [u8; 32],
        content: &[u8],
        digest: [u8; 32],
    ) -> (r: Result<Attachment, HumanCommitError>)
        ensures
            r is Ok <==> attachment_within_limits(name@, mime@, size) && size == content@.len()
                && digest@ == sha256@,
            r is Ok ==> (r->Ok_0)@ == (AttachmentModel {
                id,
                name: name@,
                mime: mime@,
                size,
                sha256,
                content: content@,
            }),
            r is Err ==> r->Err_0 is InvalidInput,
    {
        if byte_len(name) > MAX_TITLE || byte_len(mime) > MAX_TITLE || size > MAX_FILE || size
            != content.len() as u64 || !same(&digest, &sha256) {
            return Err(HumanCommitError::InvalidInput);
        }
        Ok(
            Attachment {
                id,
                name: name.to_owned(),
                mime: mime.to_owned(),
                size,
                sha256,
                content: slice_to_vec(content),
            },
        )
    }

    /// Creates metadata for content supplied through the streaming seam.
    pub fn descriptor(id: [u8; 16], name: &str, mime: &str, size: u64, sha256: [u8; 32]) -> (r:
        Result<Attachment, HumanCommitError>)
        ensures
            r is Ok <==> attachment_within_limits(name@, mime@, size),
            r is Ok ==> (r->Ok_0)@ == (AttachmentModel {
                id,
                name: name@,
                mime: mime@,
                size,
                sha256,
                content: Seq::empty(),
            }),
            r is Err ==> r->Err_0 is InvalidInput,
    {
        if byte_len(name) > MAX_TITLE || byte_len(mime) > MAX_TITLE || size > MAX_FILE {
            return Err(HumanCommitError::InvalidInput);
        }
        Ok(Attachment::unchecked(id, name.to_owned(), mime.to_owned(), size, sha256))
    }

    /// Metadata as it was stored, without content and without limits.
    pub(crate) fn unchecked(
        id: [u8; 16],
        name: String,
        mime: String,
        size: u64,
        sha256: [u8; 32],
    ) -> (r: Attachment)
        ensures
            r@ == (AttachmentModel {
                id,
                name: name@,
                mime: mime@,
                size,
                sha256,
                content: Seq::empty(),
            }),
    {
        Attachment { id, name, mime, size, sha256, content: Vec::new() }
    }

    pub fn id(&self) -> (r: &[u8; 16])
        ensures
            *r == self@.id,
    {
        &self.id
    }

    pub fn name(&self) -> (r: &str)
        ensures
            r@ == self@.name,
    {
        self.name.as_str()
    }

    pub fn mime(&self) -> (r: &str)
        ensures
            r@ == self@.mime,
    {
        self.mime.as_str()
    }

    pub fn size(&self) -> (r: u64)
        ensures
            r == self@.size,
    {
        self.size
    }

    pub fn sha256(&self) -> (r: &[u8; 32])
        ensures
            *r == self@.sha256,
    {
        &self.sha256
    }

    pub fn content(&self) -> (r: &[u8])
        ensures
            r@ == self@.content,
    {
        self.content.as_slice()
    }
}

/// A record: what the owner sees, how to authenticate, and its files.
#[derive(Debug, PartialEq, Eq)]
pub struct LogicalRecord {
    kind: RecordKind,
    human: HumanMetadata,
    auth: Vec<AuthRecord>,
    attachments: Vec<Attachment>,
}

/// The contents of a [`LogicalRecord`].
pub struct RecordModel {
    pub kind: RecordKind,
    pub human: HumanModel,
    pub auth: Seq<AuthModel>,
    pub attachments: Seq<AttachmentModel>,
}

/// Files with other identifiers.
pub open spec fn remapped(v: Seq<AttachmentModel>, ids: Seq<[u8; 16]>) -> Seq<AttachmentModel> {
    Seq::new(v.len(), |i: int| AttachmentModel { id: ids[i], ..v[i] })
}

impl View for LogicalRecord {
    type V = RecordModel;

    closed spec fn view(&self) -> RecordModel {
        RecordModel {
            kind: self.kind,
            human: self.human@,
            auth: views(self.auth@),
            attachments: views(self.attachments@),
        }
    }
}

/// The encoding of what the owner sees.
pub open spec fn human_bytes(m: RecordModel) -> Seq<u8> {
    human_then(m.kind, m.human, m.attachments, Seq::empty())
}

/// The encoding of the ways to authenticate; none where there are none.
pub open spec fn auth_bytes(m: RecordModel) -> Option<Seq<u8>> {
    if m.auth.len() == 0 {
        None
    } else {
        Some(auths_then(m.auth, Seq::empty()))
    }
}

/// Destination indices ascend without repetition and stay below
/// `destinations`.
pub open spec fn refs_valid(refs: Seq<u16>, destinations: int) -> bool {
    &&& forall|i: int, j: int| 0 <= i < j < refs.len() ==> refs[i] < refs[j]
    &&& forall|i: int| 0 <= i < refs.len() ==> #[trigger] refs[i] < destinations
}

/// The limits of one way to authenticate in a record with that many
/// destinations.
pub open spec fn auth_valid(auth: AuthModel, destinations: int) -> bool {
    match auth {
        AuthModel::Password { username, password, destination_refs } => {
            &&& encode_utf8(username).len() <= MAX_FIELD
            &&& password.len() <= MAX_FIELD
            &&& refs_valid(destination_refs, destinations)
        },
        AuthModel::Totp {
            secret,
            algorithm,
            digits,
            period,
            t0,
            issuer,
            account,
            destination_refs,
        } => {
            &&& 10 <= secret.len() <= 128
            &&& digits == 6 || digits == 8
            &&& 15 <= period <= 120
            &&& t0 == 0
            &&& encode_utf8(issuer).len() <= MAX_FIELD
            &&& encode_utf8(account).len() <= MAX_FIELD
            &&& refs_valid(destination_refs, destinations)
        },
        AuthModel::Passkey {
            rp_id,
            user_handle,
            credential_id,
            cose_alg,
            user_name,
            display_name,
            ..
        } => {
            &&& encode_utf8(rp_id).len() <= MAX_URL
            &&& user_handle.len() <= 64
            &&& 1 <= credential_id.len() <= 1024
            &&& cose_alg == -8
            &&& encode_utf8(user_name).len() <= MAX_FIELD
            &&& encode_utf8(display_name).len() <= MAX_FIELD
        },
        AuthModel::Ssh { private_key, public_key, username, destination_refs, passphrase, .. } => {
            &&& private_key.len() <= MAX_FIELD
            &&& public_key.len() <= MAX_FIELD
            &&& encode_utf8(username).len() <= MAX_FIELD
            &&& passphrase is Some ==> (passphrase->0).len() <= MAX_FIELD
            &&& refs_valid(destination_refs, destinations)
        },
        AuthModel::Token { secret, provider, profile_id, destination_refs, .. } => {
            &&& secret.len() <= MAX_FIELD
            &&& encode_utf8(provider).len() <= MAX_TITLE
            &&& encode_utf8(profile_id).len() <= MAX_TITLE
            &&& refs_valid(destination_refs, destinations)
        },
    }
}

/// Exactly one password, and one-time passwords besides it.
pub open spec fn one_password(auth: Seq<AuthModel>) -> bool {
    exists|i: int| #[trigger] password_at(auth, i)
}

/// The only password stands at `i`, and one-time passwords everywhere else.
pub open spec fn password_at(auth: Seq<AuthModel>, i: int) -> bool {
    &&& 0 <= i < auth.len()
    &&& auth[i] is Password
    &&& forall|j: int| 0 <= j < auth.len() && j != i ==> (#[trigger] auth[j]) is Totp
}

/// The ways to authenticate and the files that each kind of record has.
pub open spec fn kind_matches(
    kind: RecordKind,
    auth: Seq<AuthModel>,
    attachments: Seq<AttachmentModel>,
) -> bool {
    match kind {
        RecordKind::Password => one_password(auth),
        RecordKind::Totp => auth.len() == 1 && auth[0] is Totp,
        RecordKind::Passkey => auth.len() == 1 && auth[0] is Passkey,
        RecordKind::Ssh => auth.len() == 1 && auth[0] is Ssh,
        RecordKind::Token => auth.len() == 1 && auth[0] is Token,
        RecordKind::Note => auth.len() == 0,
        RecordKind::File => auth.len() == 0 && attachments.len() > 0,
    }
}

/// The limits of a destination.
pub open spec fn destination_valid(d: DestinationModel) -> bool {
    encode_utf8(d.label).len() <= MAX_TITLE && encode_utf8(d.value).len() <= MAX_URL
}

/// The limits of a custom field.
pub open spec fn field_valid(field: FieldModel) -> bool {
    &&& encode_utf8(field.label).len() <= MAX_TITLE
    &&& match field.value {
        ValueModel::Text(s) => encode_utf8(s).len() <= MAX_FIELD,
        ValueModel::Bytes(s) => s.len() <= MAX_FIELD,
    }
}

/// The limits of a source field; a value kept as text is valid UTF-8.
pub open spec fn source_field_valid(field: SourceFieldModel) -> bool {
    &&& encode_utf8(field.path).len() <= MAX_TITLE
    &&& field.value.len() <= MAX_FIELD
    &&& field.encoding is Bytes || valid_utf8(field.value)
}

/// No two attachments share an identifier.
pub open spec fn ids_distinct(v: Seq<AttachmentModel>) -> bool {
    forall|i: int, j: int| 0 <= i < j < v.len() ==> (#[trigger] v[i]).id != (#[trigger] v[j]).id
}

/// The limits of what the owner sees.
pub open spec fn human_valid(h: HumanModel) -> bool {
    &&& encode_utf8(h.title).len() <= MAX_TITLE
    &&& encode_utf8(h.notes).len() <= MAX_FIELD
    &&& h.fields.len() <= MAX_FIELDS
    &&& h.destinations.len() <= MAX_DESTINATIONS
    &&& h.tags.len() <= MAX_TAGS
    &&& forall|i: int| 0 <= i < h.destinations.len()
        ==> destination_valid(#[trigger] h.destinations[i])
    &&& forall|i: int| 0 <= i < h.tags.len()
        ==> encode_utf8(#[trigger] h.tags[i]).len() <= MAX_TITLE
    &&& forall|i: int| 0 <= i < h.fields.len() ==> field_valid(#[trigger] h.fields[i])
    &&& forall|i: int|
        0 <= i < h.source_fields.len() ==> source_field_valid(#[trigger] h.source_fields[i])
}

/// Every limit of a record but those on the bytes of its files.
pub open spec fn shape_valid(m: RecordModel) -> bool {
    &&& kind_matches(m.kind, m.auth, m.attachments)
    &&& human_valid(m.human)
    &&& forall|i: int|
        0 <= i < m.attachments.len() ==> attachment_within_limits(
            (#[trigger] m.attachments[i]).name,
            m.attachments[i].mime,
            m.attachments[i].size,
        )
    &&& ids_distinct(m.attachments)
    &&& forall|i: int|
        0 <= i < m.auth.len() ==> auth_valid(
            #[trigger] m.auth[i],
            m.human.destinations.len() as int,
        )
    &&& logical_size(m) <= MAX_LOGICAL_RECORD
}

/// The encoded size of a record without the bytes of its files.
pub open spec fn logical_size(m: RecordModel) -> int {
    human_bytes(m).len() + match auth_bytes(m) {
        Some(b) => b.len() as int,
        None => 0,
    }
}

/// Every file is complete: its bytes have the declared size and `digests`,
/// computed from them, the declared digest.
pub open spec fn files_complete(v: Seq<AttachmentModel>, digests: Seq<[u8; 32]>) -> bool {
    &&& digests.len() == v.len()
    &&& forall|i: int|
        0 <= i < v.len() ==> (#[trigger] v[i]).size == v[i].content.len() && digests[i]@
            == v[i].sha256@
}

/// A valid record stays valid under other tags, whatever files it has, where
/// the tags are within their limits and the record does not grow too large.
pub proof fn lemma_organized(m: RecordModel, tags: Seq<Seq<char>>, favorite: bool)
    requires
        shape_valid(m),
    ensures
        ({
            let after = RecordModel { human: HumanModel { tags, favorite, ..m.human }, ..m };
            shape_valid(after) <==> {
                &&& tags.len() <= MAX_TAGS
                &&& forall|i: int|
                    0 <= i < tags.len() ==> encode_utf8(#[trigger] tags[i]).len() <= MAX_TITLE
                &&& logical_size(after) <= MAX_LOGICAL_RECORD
            }
        }),
{
}

/// Whether destination indices ascend and stay below `destinations`.
pub fn valid_refs(refs: &Vec<u16>, destinations: usize) -> (r: bool)
    ensures
        r == refs_valid(refs@, destinations as int),
{
    let mut i: usize = 0;
    while i < refs.len()
        invariant
            i <= refs@.len(),
            refs_valid(refs@.take(i as int), destinations as int),
        decreases refs@.len() - i,
    {
        let ghost seen = refs@.take(i as int);
        let ghost next = refs@.take(i + 1);
        if refs[i] as usize >= destinations || (i > 0 && refs[i - 1] >= refs[i]) {
            assert(!refs_valid(refs@, destinations as int));
            return false;
        }
        assert forall|a: int, b: int| 0 <= a < b < next.len() implies next[a] < next[b] by {
            if b == i {
                if a < i - 1 {
                    assert(seen[a] < seen[i - 1]);
                }
            } else {
                assert(seen[a] < seen[b]);
            }
        }
        assert forall|a: int| 0 <= a < next.len() implies #[trigger] next[a] < destinations by {
            if a < i {
                assert(seen[a] < destinations);
            }
        }
        i += 1;
    }
    assert(refs@.take(i as int) =~= refs@);
    true
}

/// Whether one way to authenticate is within its limits.
pub fn valid_auth(auth: &AuthRecord, destinations: usize) -> (r: bool)
    ensures
        r == auth_valid(auth@, destinations as int),
{
    match auth {
        AuthRecord::Password { username, password, destination_refs } => {
            byte_len(username) <= MAX_FIELD && password.len() <= MAX_FIELD && valid_refs(
                destination_refs,
                destinations,
            )
        },
        AuthRecord::Totp {
            secret,
            algorithm: _,
            digits,
            period,
            t0,
            issuer,
            account,
            destination_refs,
        } => {
            10 <= secret.len() && secret.len() <= 128 && (*digits == 6 || *digits == 8) && 15
                <= *period && *period <= 120 && *t0 == 0 && byte_len(issuer) <= MAX_FIELD
                && byte_len(account) <= MAX_FIELD && valid_refs(destination_refs, destinations)
        },
        AuthRecord::Passkey {
            rp_id,
            user_handle,
            credential_id,
            cose_alg,
            private_key: _,
            public_key: _,
            user_name,
            display_name,
            sign_count: _,
            backup_eligible: _,
            backup_state: _,
        } => {
            byte_len(rp_id) <= MAX_URL && user_handle.len() <= 64 && 1 <= credential_id.len()
                && credential_id.len() <= 1024 && *cose_alg == -8 && byte_len(user_name)
                <= MAX_FIELD && byte_len(display_name) <= MAX_FIELD
        },
        AuthRecord::Ssh {
            private_format: _,
            private_key,
            public_key,
            username,
            destination_refs,
            passphrase,
        } => {
            private_key.len() <= MAX_FIELD && public_key.len() <= MAX_FIELD && byte_len(username)
                <= MAX_FIELD && (match passphrase {
                Some(v) => v.len() <= MAX_FIELD,
                None => true,
            }) && valid_refs(destination_refs, destinations)
        },
        AuthRecord::Token { secret, provider, profile_id, destination_refs, expires_at: _ } => {
            secret.len() <= MAX_FIELD && byte_len(provider) <= MAX_TITLE && byte_len(profile_id)
                <= MAX_TITLE && valid_refs(destination_refs, destinations)
        },
    }
}

/// Whether a custom field exceeds its limits.
pub fn invalid_field(field: &CustomField) -> (r: bool)
    ensures
        r == !field_valid(field@),
{
    byte_len(&field.label) > MAX_TITLE || match &field.value {
        LogicalValue::Text(value) => byte_len(value) > MAX_FIELD,
        LogicalValue::Bytes(value) => value.len() > MAX_FIELD,
    }
}

/// `std::str::from_utf8`: whether bytes are valid UTF-8.
#[verifier::external_body]
fn is_utf8(value: &[u8]) -> (r: bool)
    ensures
        r == valid_utf8(value@),
{
    std::str::from_utf8(value).is_ok()
}

/// Whether a source field exceeds its limits.
pub fn invalid_source_field(field: &SourceField) -> (r: bool)
    ensures
        r == !source_field_valid(field@),
{
    byte_len(&field.path) > MAX_TITLE || field.value.len() > MAX_FIELD || (match field.encoding {
        SourceEncoding::Bytes => false,
        _ => !is_utf8(&field.value),
    })
}

/// Whether two attachments share an identifier.
pub fn has_duplicate_attachment_ids(values: &Vec<Attachment>) -> (r: bool)
    ensures
        r == !ids_distinct(views(values@)),
{
    let ghost v = views(values@);
    let mut i: usize = 0;
    while i < values.len()
        invariant
            i <= values@.len(),
            v == views(values@),
            forall|a: int, b: int| 0 <= a < b < i ==> (#[trigger] v[a]).id != (#[trigger] v[b]).id,
        decreases values@.len() - i,
    {
        let mut j: usize = 0;
        while j < i
            invariant
                j <= i < values@.len(),
                v == views(values@),
                forall|a: int| 0 <= a < j ==> (#[trigger] v[a]).id != v[i as int].id,
            decreases i - j,
        {
            if same(values[j].id(), values[i].id()) {
                proof {
                    lemma_array16(v[j as int].id, v[i as int].id);
                }
                return true;
            }
            j += 1;
        }
        i += 1;
    }
    false
}

/// Whether every destination is within its limits.
fn destinations_within_limits(values: &Vec<Destination>) -> (r: bool)
    ensures
        r == (forall|i: int|
            0 <= i < views(values@).len() ==> destination_valid(#[trigger] views(values@)[i])),
{
    let mut i: usize = 0;
    while i < values.len()
        invariant
            i <= values@.len(),
            forall|j: int| 0 <= j < i ==> destination_valid(#[trigger] views(values@)[j]),
        decreases values@.len() - i,
    {
        if byte_len(&values[i].label) > MAX_TITLE || byte_len(&values[i].value) > MAX_URL {
            assert(!destination_valid(views(values@)[i as int]));
            return false;
        }
        i += 1;
    }
    true
}

/// Whether every tag is within its limit.
fn tags_within_limits(values: &Vec<String>) -> (r: bool)
    ensures
        r == (forall|i: int|
            0 <= i < views(values@).len() ==> encode_utf8(#[trigger] views(values@)[i]).len()
                <= MAX_TITLE),
{
    let mut i: usize = 0;
    while i < values.len()
        invariant
            i <= values@.len(),
            forall|j: int|
                0 <= j < i ==> encode_utf8(#[trigger] views(values@)[j]).len() <= MAX_TITLE,
        decreases values@.len() - i,
    {
        if byte_len(&values[i]) > MAX_TITLE {
            assert(encode_utf8(views(values@)[i as int]).len() > MAX_TITLE);
            return false;
        }
        i += 1;
    }
    true
}

/// Whether every custom field is within its limits.
fn fields_within_limits(values: &Vec<CustomField>) -> (r: bool)
    ensures
        r == (forall|i: int|
            0 <= i < views(values@).len() ==> field_valid(#[trigger] views(values@)[i])),
{
    let mut i: usize = 0;
    while i < values.len()
        invariant
            i <= values@.len(),
            forall|j: int| 0 <= j < i ==> field_valid(#[trigger] views(values@)[j]),
        decreases values@.len() - i,
    {
        if invalid_field(&values[i]) {
            assert(!field_valid(views(values@)[i as int]));
            return false;
        }
        i += 1;
    }
    true
}

/// Whether every source field is within its limits.
fn source_fields_within_limits(values: &Vec<SourceField>) -> (r: bool)
    ensures
        r == (forall|i: int|
            0 <= i < views(values@).len() ==> source_field_valid(#[trigger] views(values@)[i])),
{
    let mut i: usize = 0;
    while i < values.len()
        invariant
            i <= values@.len(),
            forall|j: int| 0 <= j < i ==> source_field_valid(#[trigger] views(values@)[j]),
        decreases values@.len() - i,
    {
        if invalid_source_field(&values[i]) {
            assert(!source_field_valid(views(values@)[i as int]));
            return false;
        }
        i += 1;
    }
    true
}

/// Whether the metadata of every attachment is within its limits.
fn attachments_within_limits(values: &Vec<Attachment>) -> (r: bool)
    ensures
        r == (forall|i: int|
            0 <= i < views(values@).len() ==> attachment_within_limits(
                (#[trigger] views(values@)[i]).name,
                views(values@)[i].mime,
                views(values@)[i].size,
            )),
{
    let mut i: usize = 0;
    while i < values.len()
        invariant
            i <= values@.len(),
            forall|j: int|
                0 <= j < i ==> attachment_within_limits(
                    (#[trigger] views(values@)[j]).name,
                    views(values@)[j].mime,
                    views(values@)[j].size,
                ),
        decreases values@.len() - i,
    {
        if values[i].size > MAX_FILE || byte_len(&values[i].name) > MAX_TITLE || byte_len(
            &values[i].mime,
        ) > MAX_TITLE {
            let ghost a = views(values@)[i as int];
            assert(!attachment_within_limits(a.name, a.mime, a.size));
            return false;
        }
        i += 1;
    }
    true
}

/// Whether every way to authenticate is within its limits.
fn auths_within_limits(values: &Vec<AuthRecord>, destinations: usize) -> (r: bool)
    ensures
        r == (forall|i: int|
            0 <= i < views(values@).len() ==> auth_valid(
                #[trigger] views(values@)[i],
                destinations as int,
            )),
{
    let mut i: usize = 0;
    while i < values.len()
        invariant
            i <= values@.len(),
            forall|j: int|
                0 <= j < i ==> auth_valid(#[trigger] views(values@)[j], destinations as int),
        decreases values@.len() - i,
    {
        if !valid_auth(&values[i], destinations) {
            assert(!auth_valid(views(values@)[i as int], destinations as int));
            return false;
        }
        i += 1;
    }
    true
}

/// Whether every file is complete under the digests of its bytes.
fn all_files_complete(values: &Vec<Attachment>, digests: &Vec<[u8; 32]>) -> (r: bool)
    ensures
        r == files_complete(views(values@), digests@),
{
    if digests.len() != values.len() {
        return false;
    }
    let mut i: usize = 0;
    while i < values.len()
        invariant
            i <= values@.len(),
            digests@.len() == values@.len(),
            forall|j: int|
                0 <= j < i ==> (#[trigger] views(values@)[j]).size == views(
                    values@,
                )[j].content.len() && digests@[j]@ == views(values@)[j].sha256@,
        decreases values@.len() - i,
    {
        if values[i].size != values[i].content.len() as u64 || !same(
            &digests[i],
            &values[i].sha256,
        ) {
            let ghost a = views(values@)[i as int];
            assert(a.size != a.content.len() || digests@[i as int]@ != a.sha256@);
            return false;
        }
        i += 1;
    }
    true
}

/// Whether there is exactly one password, and one-time passwords besides it.
fn has_one_password(auth: &Vec<AuthRecord>) -> (r: bool)
    ensures
        r == one_password(views(auth@)),
{
    let ghost v = views(auth@);
    let mut found = false;
    let mut at: usize = 0;
    let mut i: usize = 0;
    while i < auth.len()
        invariant
            i <= auth@.len(),
            v == views(auth@),
            found ==> at < i && v[at as int] is Password,
            forall|j: int| 0 <= j < i && !(found && j == at) ==> (#[trigger] v[j]) is Totp,
        decreases auth@.len() - i,
    {
        match &auth[i] {
            AuthRecord::Password { .. } => {
                assert(v[i as int] is Password);
                if found {
                    proof {
                        assert forall|k: int| !#[trigger] password_at(v, k) by {
                            if password_at(v, k) {
                                if k == i {
                                    assert(v[at as int] is Totp);
                                } else {
                                    assert(v[i as int] is Totp);
                                }
                            }
                        }
                    }
                    return false;
                }
                found = true;
                at = i;
            },
            AuthRecord::Totp { .. } => {
                assert(v[i as int] is Totp);
            },
            _ => {
                proof {
                    assert forall|k: int| !#[trigger] password_at(v, k) by {
                        if password_at(v, k) && k != i {
                            assert(v[i as int] is Totp);
                        }
                    }
                }
                return false;
            },
        }
        i += 1;
    }
    proof {
        if found {
            assert(password_at(v, at as int));
        } else {
            assert forall|k: int| !#[trigger] password_at(v, k) by {
                if password_at(v, k) {
                    assert(v[k] is Totp);
                }
            }
        }
    }
    found
}

impl LogicalRecord {
    /// What the record is.
    pub fn kind(&self) -> (r: RecordKind)
        ensures
            r == self@.kind,
    {
        self.kind
    }

    /// What the owner sees.
    pub fn human(&self) -> (r: &HumanMetadata)
        ensures
            r@ == self@.human,
    {
        &self.human
    }

    /// The ways to authenticate.
    pub fn auth(&self) -> (r: &[AuthRecord])
        ensures
            views(r@) == self@.auth,
    {
        self.auth.as_slice()
    }

    /// The files.
    pub fn attachments(&self) -> (r: &[Attachment])
        ensures
            views(r@) == self@.attachments,
    {
        self.attachments.as_slice()
    }

    /// Gives the files other identifiers, one for each in their order.
    pub fn remap_attachment_ids(&mut self, ids: &Vec<[u8; 16]>) -> (r: Result<(), HumanCommitError>)
        ensures
            if ids@.len() == old(self)@.attachments.len() {
                r is Ok && final(self)@ == (RecordModel {
                    attachments: remapped(old(self)@.attachments, ids@),
                    ..old(self)@
                })
            } else {
                r is Err && r->Err_0 is InvalidInput && final(self)@ == old(self)@
            },
    {
        if ids.len() != self.attachments.len() {
            return Err(HumanCommitError::InvalidInput);
        }
        let ghost before = views(self.attachments@);
        let ghost (kind, human, auth) = (self.kind, self.human, self.auth);
        let mut i: usize = 0;
        while i < self.attachments.len()
            invariant
                i <= self.attachments@.len(),
                self.attachments@.len() == ids@.len(),
                before.len() == ids@.len(),
                self.kind == kind,
                self.human == human,
                self.auth == auth,
                forall|j: int|
                    0 <= j < before.len() ==> (#[trigger] views(self.attachments@)[j])
                        == (if j < i {
                        AttachmentModel { id: ids@[j], ..before[j] }
                    } else {
                        before[j]
                    }),
            decreases self.attachments@.len() - i,
        {
            let ghost at = self.attachments@;
            let mut file = Attachment {
                id: ids[i],
                name: String::new(),
                mime: String::new(),
                size: 0,
                sha256: [0u8; 32],
                content: Vec::new(),
            };
            self.attachments.set_and_swap(i, &mut file);
            assert(file@ == views(at)[i as int]);
            file.id = ids[i];
            self.attachments.set(i, file);
            assert forall|j: int| 0 <= j < before.len() implies (#[trigger] views(
                self.attachments@,
            )[j]) == (if j < i + 1 {
                AttachmentModel { id: ids@[j], ..before[j] }
            } else {
                before[j]
            }) by {
                assert(views(at)[j] == (if j < i {
                    AttachmentModel { id: ids@[j], ..before[j] }
                } else {
                    before[j]
                }));
            }
            i += 1;
        }
        assert(views(self.attachments@) =~= remapped(before, ids@));
        Ok(())
    }

    /// Validates one complete record against the limits of its kind; `digests`
    /// are those of the bytes of its files, in order.
    pub fn new(
        kind: RecordKind,
        human: HumanMetadata,
        auth: Vec<AuthRecord>,
        attachments: Vec<Attachment>,
        digests: &Vec<[u8; 32]>,
    ) -> (r: Result<LogicalRecord, HumanCommitError>)
        ensures
            ({
                let m = RecordModel {
                    kind,
                    human: human@,
                    auth: views(auth@),
                    attachments: views(attachments@),
                };
                &&& r is Ok <==> shape_valid(m) && files_complete(m.attachments, digests@)
                &&& r is Ok ==> (r->Ok_0)@ == m
            }),
            r is Err ==> r->Err_0 is InvalidInput,
    {
        let record = LogicalRecord { kind, human, auth, attachments };
        if record.shape_ok() && all_files_complete(&record.attachments, digests) {
            Ok(record)
        } else {
            Err(HumanCommitError::InvalidInput)
        }
    }

    /// Constructs a record whose file bytes arrive through bounded readers.
    pub fn new_streaming(
        kind: RecordKind,
        human: HumanMetadata,
        auth: Vec<AuthRecord>,
        attachments: Vec<Attachment>,
    ) -> (r: Result<LogicalRecord, HumanCommitError>)
        ensures
            ({
                let m = RecordModel {
                    kind,
                    human: human@,
                    auth: views(auth@),
                    attachments: views(attachments@),
                };
                &&& r is Ok <==> shape_valid(m) && without_content(m.attachments)
                &&& r is Ok ==> (r->Ok_0)@ == m
            }),
            r is Err ==> r->Err_0 is InvalidInput,
    {
        let record = LogicalRecord { kind, human, auth, attachments };
        if record.contents_empty() && record.shape_ok() {
            Ok(record)
        } else {
            Err(HumanCommitError::InvalidInput)
        }
    }

    /// Whether no file carries bytes.
    fn contents_empty(&self) -> (r: bool)
        ensures
            r == without_content(self@.attachments),
    {
        let mut i: usize = 0;
        while i < self.attachments.len()
            invariant
                i <= self.attachments@.len(),
                forall|j: int|
                    0 <= j < i ==> (#[trigger] self@.attachments[j]).content == Seq::<u8>::empty(),
            decreases self.attachments@.len() - i,
        {
            if self.attachments[i].content.len() != 0 {
                assert(self@.attachments[i as int].content.len() != 0);
                return false;
            }
            assert(self@.attachments[i as int].content =~= Seq::<u8>::empty());
            i += 1;
        }
        true
    }

    /// The encoding of what the owner sees.
    pub fn encode_human(&self) -> (r: Vec<u8>)
        ensures
            r@ == human_bytes(self@),
    {
        let mut w = Writer::new();
        assert(w@ + human_bytes(self@) == human_bytes(self@));
        put_human(&mut w, self.kind, &self.human, &self.attachments);
        w.finish()
    }

    /// The encoding of the ways to authenticate, where there are any.
    pub fn encode_auth(&self) -> (r: Option<Vec<u8>>)
        ensures
            opt_vec(r) == auth_bytes(self@),
    {
        if self.auth.len() == 0 {
            return None;
        }
        let mut w = Writer::new();
        let ghost all = auths_then(self@.auth, Seq::empty());
        assert(w@ + all == all);
        put_auths(&mut w, &self.auth);
        Some(w.finish())
    }

    /// Whether the record is within every limit but those on file bytes.
    fn shape_ok(&self) -> (r: bool)
        ensures
            r == shape_valid(self@),
    {
        let matching = match self.kind {
            RecordKind::Password => has_one_password(&self.auth),
            RecordKind::Totp => self.auth.len() == 1 && (match &self.auth[0] {
                AuthRecord::Totp { .. } => true,
                _ => false,
            }),
            RecordKind::Passkey => self.auth.len() == 1 && (match &self.auth[0] {
                AuthRecord::Passkey { .. } => true,
                _ => false,
            }),
            RecordKind::Ssh => self.auth.len() == 1 && (match &self.auth[0] {
                AuthRecord::Ssh { .. } => true,
                _ => false,
            }),
            RecordKind::Token => self.auth.len() == 1 && (match &self.auth[0] {
                AuthRecord::Token { .. } => true,
                _ => false,
            }),
            RecordKind::Note => self.auth.len() == 0,
            RecordKind::File => self.auth.len() == 0 && self.attachments.len() > 0,
        };
        assert(self@.auth.len() == self.auth@.len());
        assert(self.auth@.len() > 0 ==> self@.auth[0] == self.auth@[0]@);
        assert(matching == kind_matches(self@.kind, self@.auth, self@.attachments));
        if !matching || byte_len(&self.human.title) > MAX_TITLE || byte_len(&self.human.notes)
            > MAX_FIELD || self.human.fields.len() > MAX_FIELDS || self.human.destinations.len()
            > MAX_DESTINATIONS || self.human.tags.len() > MAX_TAGS || !destinations_within_limits(
            &self.human.destinations,
        ) || !tags_within_limits(&self.human.tags) || !fields_within_limits(&self.human.fields)
            || !source_fields_within_limits(&self.human.source_fields)
            || !attachments_within_limits(&self.attachments) || has_duplicate_attachment_ids(
            &self.attachments,
        ) || !auths_within_limits(&self.auth, self.human.destinations.len()) {
            return false;
        }
        let human: usize = self.encode_human().len();
        let auth: usize = match self.encode_auth() {
            Some(v) => v.len(),
            None => 0,
        };
        human <= MAX_LOGICAL_RECORD && auth <= MAX_LOGICAL_RECORD - human
    }
}

/// The two encodings of a valid record that carries no file bytes.
pub open spec fn parts_of(m: RecordModel, human: Seq<u8>, auth: Option<Seq<u8>>) -> bool {
    &&& shape_valid(m)
    &&& without_content(m.attachments)
    &&& human_bytes(m) == human
    &&& auth_bytes(m) == auth
}

/// The encoding of a record without file bytes.
pub open spec fn descriptor_bytes(m: RecordModel) -> Seq<u8> {
    map_head(3) + (text_item("v"@) + (uint_item(1) + (text_item("human"@)
        + (bytes_item(human_bytes(m))
        + (text_item("auth"@) + optional_bytes_item(auth_bytes(m)))))))
}

impl LogicalRecord {
    /// Decodes the ways to authenticate.
    fn decode_auth_array(bytes: Option<&[u8]>) -> (r: Option<Vec<AuthRecord>>)
        ensures
            bytes is None ==> r is Some && (r->0)@.len() == 0,
            forall|v: Seq<AuthModel>|
                opt_view(bytes) == Some(#[trigger] auths_then(v, Seq::empty())) ==> r is Some
                    && views(
                    (r->0)@,
                ) == v,
    {
        match bytes {
            None => Some(Vec::new()),
            Some(bytes) => {
                let mut d = Reader::new(bytes);
                let auth = take_auths(&mut d)?;
                if d.at_end() {
                    Some(auth)
                } else {
                    None
                }
            },
        }
    }

    /// Decodes a record from its two encodings; anything that encoding would
    /// not produce is refused.
    pub fn decode_parts(human_part: &[u8], auth_part: Option<&[u8]>) -> (r: Result<
        LogicalRecord,
        HumanCommitError,
    >)
        ensures
            forall|m: RecordModel| #[trigger]
                parts_of(m, human_part@, opt_view(auth_part)) ==> r is Ok && (r->Ok_0)@ == m,
            r is Ok ==> parts_of((r->Ok_0)@, human_part@, opt_view(auth_part)),
            r is Err ==> r->Err_0 is InvalidInput,
    {
        let mut d = Reader::new(human_part);
        let (kind, human, attachments) = match take_human(&mut d) {
            Some(v) => v,
            None => {
                return Err(HumanCommitError::InvalidInput);
            },
        };
        if !d.at_end() {
            return Err(HumanCommitError::InvalidInput);
        }
        let auth = match LogicalRecord::decode_auth_array(auth_part) {
            Some(v) => v,
            None => {
                return Err(HumanCommitError::InvalidInput);
            },
        };
        let record = LogicalRecord { kind, human, auth, attachments };
        assert forall|m: RecordModel| #[trigger]
            parts_of(m, human_part@, opt_view(auth_part)) implies record@ == m by {
            if m.auth.len() == 0 {
                assert(record@.auth =~= m.auth);
            }
        }
        if !record.contents_empty() || !record.shape_ok() || !same(
            &record.encode_human(),
            human_part,
        ) {
            return Err(HumanCommitError::InvalidInput);
        }
        let same_auth = match (record.encode_auth(), auth_part) {
            (Some(a), Some(b)) => same(&a, b),
            (None, None) => true,
            _ => false,
        };
        if same_auth {
            Ok(record)
        } else {
            Err(HumanCommitError::InvalidInput)
        }
    }

    /// Encodes metadata and ways to authenticate for the chunked transport.
    pub fn to_descriptor_bytes(&self) -> (r: Vec<u8>)
        ensures
            r@ == descriptor_bytes(self@),
    {
        let human = self.encode_human();
        let auth = self.encode_auth();
        let mut w = Writer::new();
        assert(w@ + descriptor_bytes(self@) == descriptor_bytes(self@));
        w.map(3);
        w.str("v");
        w.u8(1);
        w.str("human");
        w.bytes(&human);
        w.str("auth");
        match &auth {
            Some(v) => w.bytes(v.as_slice()),
            None => w.null(),
        }
        w.finish()
    }

    /// Decodes metadata and ways to authenticate from the chunked transport.
    pub fn from_descriptor_bytes(bytes: &[u8]) -> (r: Result<LogicalRecord, HumanCommitError>)
        ensures
            forall|m: RecordModel|
                shape_valid(m) && without_content(m.attachments)
                    && bytes@ == #[trigger] descriptor_bytes(
                    m,
                ) ==> r is Ok && (r->Ok_0)@ == m,
            r is Ok ==> shape_valid((r->Ok_0)@) && without_content((r->Ok_0)@.attachments)
                && descriptor_bytes((r->Ok_0)@) == bytes@,
            r is Err ==> r->Err_0 is InvalidInput,
    {
        let (human, auth) = match LogicalRecord::read_descriptor(bytes) {
            Some(v) => v,
            None => {
                return Err(HumanCommitError::InvalidInput);
            },
        };
        let auth_part = match &auth {
            Some(v) => Some(v.as_slice()),
            None => None,
        };
        assert forall|m: RecordModel|
            shape_valid(m) && without_content(m.attachments)
                && bytes@ == #[trigger] descriptor_bytes(
                m,
            ) implies parts_of(m, human@, opt_view(auth_part)) by {
        }
        let record = LogicalRecord::decode_parts(human.as_slice(), auth_part)?;
        if same(&record.to_descriptor_bytes(), bytes) {
            Ok(record)
        } else {
            Err(HumanCommitError::InvalidInput)
        }
    }

    /// The two encodings inside a descriptor.
    fn read_descriptor(bytes: &[u8]) -> (r: Option<(Vec<u8>, Option<Vec<u8>>)>)
        ensures
            forall|m: RecordModel|
                bytes@ == #[trigger] descriptor_bytes(m) ==> r is Some
                    && (r->0).0@ == human_bytes(m)
                    && opt_vec((r->0).1) == auth_bytes(m),
    {
        let mut d = Reader::new(bytes);
        d.map_of(3)?;
        d.key("v")?;
        let v: u8 = d.u8()?;
        if v != 1 {
            return None;
        }
        d.key("human")?;
        let human = slice_to_vec(d.bytes()?);
        d.key("auth")?;
        let auth = read_optional_bytes(&mut d)?;
        if d.at_end() {
            Some((human, auth))
        } else {
            None
        }
    }
}

/// The bytes of one file as they stand in a full encoding.
pub struct ContentModel {
    pub id: [u8; 16],
    pub content: Seq<u8>,
}

/// The bytes of a file, followed by `t`.
pub open spec fn content_then(m: ContentModel, t: Seq<u8>) -> Seq<u8> {
    map_head(2) + (text_item("id"@) + (bytes_item(m.id@) + (text_item("content"@) + (bytes_item(
        m.content,
    ) + t))))
}

/// The bytes of a list of files, followed by `t`.
pub open spec fn contents_tail(v: Seq<ContentModel>, t: Seq<u8>) -> Seq<u8>
    decreases v.len(),
{
    if v.len() == 0 {
        t
    } else {
        content_then(v[0], contents_tail(v.skip(1), t))
    }
}

/// The bytes of the files of a record.
pub open spec fn contents_of(m: RecordModel) -> Seq<ContentModel> {
    Seq::new(
        m.attachments.len(),
        |i: int| ContentModel { id: m.attachments[i].id, content: m.attachments[i].content },
    )
}

/// The complete encoding of a record, file bytes included.
pub open spec fn full_bytes(m: RecordModel) -> Seq<u8> {
    map_head(4) + (text_item("v"@) + (uint_item(1) + (text_item("human"@)
        + (bytes_item(human_bytes(m))
        + (text_item("auth"@) + (optional_bytes_item(auth_bytes(m)) + (text_item("attachments"@) + (
    array_head(m.attachments.len() as u64) + contents_tail(contents_of(m), Seq::empty())))))))))
}

/// The bytes of one file at the front of `b`, and what follows.
pub open spec fn take_content(b: Seq<u8>) -> Option<(Seq<u8>, Seq<u8>, Seq<u8>)> {
    match take_map_of(b, 2) {
        Some(b) => match take_key(b, "id"@) {
            Some(b) => match take_bytes(b) {
                Some((id, b)) => if id.len() == 16 {
                    match take_key(b, "content"@) {
                        Some(b) => match take_bytes(b) {
                            Some((content, b)) => Some((id, content, b)),
                            None => None,
                        },
                        None => None,
                    }
                } else {
                    None
                },
                None => None,
            },
            None => None,
        },
        None => None,
    }
}

/// The bytes of `n` files at the front of `b`, identifier and content, and
/// what follows.
pub open spec fn take_contents(b: Seq<u8>, n: nat) -> Option<(Seq<(Seq<u8>, Seq<u8>)>, Seq<u8>)>
    decreases n,
{
    if n == 0 {
        Some((Seq::empty(), b))
    } else {
        match take_content(b) {
            Some((id, content, b)) => match take_contents(b, (n - 1) as nat) {
                Some((more, b)) => Some((seq![(id, content)] + more, b)),
                None => None,
            },
            None => None,
        }
    }
}

/// What a complete encoding holds: the two encodings of the record and the
/// bytes of its files.
pub struct EnvelopeModel {
    pub human: Seq<u8>,
    pub auth: Option<Seq<u8>>,
    pub contents: Seq<(Seq<u8>, Seq<u8>)>,
}

/// The parts of a complete encoding, with heads of any width.
pub open spec fn open_envelope(b: Seq<u8>) -> Option<EnvelopeModel> {
    match take_map_of(b, 4) {
        Some(b) => match take_key(b, "v"@) {
            Some(b) => match take_uint(b) {
                Some((v, b)) => if v == 1 {
                    match take_key(b, "human"@) {
                        Some(b) => match take_bytes(b) {
                            Some((human, b)) => match take_key(b, "auth"@) {
                                Some(b) => match take_optional_bytes(b) {
                                    Some((auth, b)) => open_contents(human, auth, b),
                                    None => None,
                                },
                                None => None,
                            },
                            None => None,
                        },
                        None => None,
                    }
                } else {
                    None
                },
                None => None,
            },
            None => None,
        },
        None => None,
    }
}

/// The file bytes at the end of a complete encoding, with the parts before
/// them.
pub open spec fn open_contents(human: Seq<u8>, auth: Option<Seq<u8>>, b: Seq<u8>) -> Option<
    EnvelopeModel,
> {
    match take_key(b, "attachments"@) {
        Some(b) => match take_array(b) {
            Some((n, b)) => match take_contents(b, n as nat) {
                Some((contents, b)) => if b.len() == 0 {
                    Some(EnvelopeModel { human, auth, contents })
                } else {
                    None
                },
                None => None,
            },
            None => None,
        },
        None => None,
    }
}

/// A complete encoding taken apart.
struct Envelope {
    human: Vec<u8>,
    auth: Option<Vec<u8>>,
    contents: Vec<([u8; 16], Vec<u8>)>,
}

/// Identifier and content of each file of a list.
pub open spec fn pairs(v: Seq<([u8; 16], Vec<u8>)>) -> Seq<(Seq<u8>, Seq<u8>)> {
    Seq::new(v.len(), |i: int| (v[i].0@, v[i].1@))
}

impl View for Envelope {
    type V = EnvelopeModel;

    closed spec fn view(&self) -> EnvelopeModel {
        EnvelopeModel { human: self.human@, auth: opt_vec(self.auth),
            contents: pairs(self.contents@) }
    }
}

/// Reads the bytes of one file.
fn read_content(d: &mut Reader) -> (r: Option<([u8; 16], Vec<u8>)>)
    ensures
        match take_content(old(d).rest()) {
            Some((id, content, t)) => r is Some && (r->0).0@ == id && (r->0).1@ == content
                && final(d).rest() == t,
            None => r is None,
        },
{
    d.map_of(2)?;
    d.key("id")?;
    let id = d.fixed16()?;
    d.key("content")?;
    let content = slice_to_vec(d.bytes()?);
    Some((id, content))
}

/// Reads the bytes of `n` files.
fn read_contents(d: &mut Reader, n: u64) -> (r: Option<Vec<([u8; 16], Vec<u8>)>>)
    ensures
        match take_contents(old(d).rest(), n as nat) {
            Some((v, t)) => r is Some && pairs((r->0)@) == v && final(d).rest() == t,
            None => r is None,
        },
{
    let mut out: Vec<([u8; 16], Vec<u8>)> = Vec::new();
    let mut i: u64 = 0;
    let ghost all = take_contents(d.rest(), n as nat);
    proof {
        if let Some((v, t)) = all {
            assert(pairs(out@) + v =~= v);
        }
    }
    while i < n
        invariant
            i <= n,
            all == take_contents(old(d).rest(), n as nat),
            match take_contents(d.rest(), (n - i) as nat) {
                Some((v, t)) => all == Some((pairs(out@) + v, t)),
                None => all is None,
            },
        decreases n - i,
    {
        let ghost before = out@;
        let x = read_content(d)?;
        out.push(x);
        i += 1;
        proof {
            if let Some((v, t)) = take_contents(d.rest(), (n - i) as nat) {
                assert(pairs(out@) + v =~= pairs(before) + (seq![(x.0@, x.1@)] + v));
            }
        }
    }
    assert(pairs(out@) + Seq::<(Seq<u8>, Seq<u8>)>::empty() =~= pairs(out@));
    Some(out)
}

/// Takes a complete encoding apart.
fn read_envelope(bytes: &[u8]) -> (r: Option<Envelope>)
    ensures
        match open_envelope(bytes@) {
            Some(m) => r is Some && (r->0)@ == m,
            None => r is None,
        },
{
    let mut d = Reader::new(bytes);
    d.map_of(4)?;
    d.key("v")?;
    let v: u8 = d.u8()?;
    if v != 1 {
        return None;
    }
    d.key("human")?;
    let human = slice_to_vec(d.bytes()?);
    d.key("auth")?;
    let auth = read_optional_bytes(&mut d)?;
    d.key("attachments")?;
    let n: u64 = d.array()?;
    let contents = read_contents(&mut d, n)?;
    if d.at_end() {
        Some(Envelope { human, auth, contents })
    } else {
        None
    }
}

/// The first attachment at `i` or behind it with that identifier.
pub open spec fn find_attachment(v: Seq<AttachmentModel>, id: Seq<u8>, i: int) -> Option<int>
    decreases v.len() - i,
{
    if i < 0 || i >= v.len() {
        None
    } else if v[i].id@ == id {
        Some(i)
    } else {
        find_attachment(v, id, i + 1)
    }
}

/// A record with the bytes of one file put in: the first with that identifier,
/// which must lack them, and whose declared size and digest they must have.
pub open spec fn with_content(m: RecordModel, id: Seq<u8>, content: Seq<u8>,
    digest: Seq<u8>) -> Option<
    RecordModel,
> {
    match find_attachment(m.attachments, id, 0) {
        Some(i) => {
            let a = m.attachments[i];
            if a.size == content.len() && digest == a.sha256@ && a.content.len() == 0 {
                Some(
                    RecordModel {
                        attachments: m.attachments.update(i, AttachmentModel { content, ..a }),
                        ..m
                    },
                )
            } else {
                None
            }
        },
        None => None,
    }
}

/// A record with the bytes of several files put in, one after another.
pub open spec fn with_contents(
    m: RecordModel,
    contents: Seq<(Seq<u8>, Seq<u8>)>,
    digests: Seq<[u8; 32]>,
    i: int,
) -> Option<RecordModel>
    decreases contents.len() - i,
{
    if i < 0 || i >= contents.len() {
        Some(m)
    } else {
        match with_content(m, contents[i].0, contents[i].1, digests[i]@) {
            Some(next) => with_contents(next, contents, digests, i + 1),
            None => None,
        }
    }
}

impl LogicalRecord {
    /// Puts the bytes of one file in; `digest` is computed from them.
    pub fn restore_attachment(&mut self, id: [u8; 16], content: Vec<u8>,
        digest: [u8; 32]) -> (r: Result<
        (),
        HumanCommitError,
    >)
        ensures
            match with_content(old(self)@, id@, content@, digest@) {
                Some(m) => r is Ok && final(self)@ == m,
                None => r is Err && r->Err_0 is InvalidCommand && final(self)@ == old(self)@,
            },
    {
        let mut i: usize = 0;
        while i < self.attachments.len()
            invariant
                i <= self.attachments@.len(),
                self@ == old(self)@,
                find_attachment(self@.attachments, id@, 0) == find_attachment(
                    self@.attachments,
                    id@,
                    i as int,
                ),
            decreases self.attachments@.len() - i,
        {
            if same(&self.attachments[i].id, &id) {
                let ghost a = self@.attachments[i as int];
                if self.attachments[i].size != content.len() as u64 || !same(
                    &digest,
                    &self.attachments[i].sha256,
                ) || self.attachments[i].content.len() != 0 {
                    return Err(HumanCommitError::InvalidCommand);
                }
                self.attachments[i].content = content;
                assert(self@.attachments =~= old(self)@.attachments.update(
                    i as int,
                    AttachmentModel { content: content@, ..a },
                ));
                return Ok(());
            }
            i += 1;
        }
        Err(HumanCommitError::InvalidCommand)
    }
}

/// Identifier and content of each file of a record.
pub open spec fn content_pairs(v: Seq<ContentModel>) -> Seq<(Seq<u8>, Seq<u8>)> {
    Seq::new(v.len(), |i: int| (v[i].id@, v[i].content))
}

/// The bytes of one file are read back.
proof fn lemma_take_content(m: ContentModel, t: Seq<u8>)
    requires
        content_then(m, t).len() <= u64::MAX,
    ensures
        take_content(content_then(m, t)) == Some((m.id@, m.content, t)),
        t.len() <= content_then(m, t).len(),
{
    let b4 = bytes_item(m.content) + t;
    let b3 = text_item("content"@) + b4;
    let b2 = bytes_item(m.id@) + b3;
    let b1 = text_item("id"@) + b2;
    lemma_map(2, b1);
    lemma_text_within("id"@, b2);
    lemma_bytes_within(m.id@, b3);
    lemma_text_within("content"@, b4);
    lemma_bytes_within(m.content, t);
}

/// The bytes of a list of files are read back.
proof fn lemma_take_contents(v: Seq<ContentModel>, t: Seq<u8>)
    requires
        contents_tail(v, t).len() <= u64::MAX,
    ensures
        take_contents(contents_tail(v, t), v.len()) == Some((content_pairs(v), t)),
    decreases v.len(),
{
    if v.len() > 0 {
        let u = contents_tail(v.skip(1), t);
        lemma_take_content(v[0], u);
        lemma_take_contents(v.skip(1), t);
        assert(seq![(v[0].id@, v[0].content)] + content_pairs(v.skip(1)) =~= content_pairs(v));
    } else {
        assert(content_pairs(v) =~= Seq::empty());
    }
}

/// Every file takes at least one byte.
proof fn lemma_contents_len(v: Seq<ContentModel>, t: Seq<u8>)
    ensures
        contents_tail(v, t).len() >= v.len() + t.len(),
    decreases v.len(),
{
    if v.len() > 0 {
        lemma_contents_len(v.skip(1), t);
        lemma_head_len(MAP, 2);
    }
}

/// A complete encoding opens to the parts it was made of.
pub proof fn lemma_open_envelope(m: RecordModel)
    requires
        full_bytes(m).len() <= u64::MAX,
    ensures
        open_envelope(full_bytes(m)) == Some(
            EnvelopeModel {
                human: human_bytes(m),
                auth: auth_bytes(m),
                contents: content_pairs(contents_of(m)),
            },
        ),
{
    let n = m.attachments.len() as u64;
    let b8 = contents_tail(contents_of(m), Seq::empty());
    let b7 = array_head(n) + b8;
    let b6 = text_item("attachments"@) + b7;
    let b5 = optional_bytes_item(auth_bytes(m)) + b6;
    let b4 = text_item("auth"@) + b5;
    let b3 = bytes_item(human_bytes(m)) + b4;
    let b2 = text_item("human"@) + b3;
    let b1 = uint_item(1) + b2;
    let b0 = text_item("v"@) + b1;
    lemma_contents_len(contents_of(m), Seq::empty());
    assert(full_bytes(m) == map_head(4) + b0);
    lemma_map(4, b0);
    lemma_text_within("v"@, b1);
    lemma_uint(1, b2);
    lemma_text_within("human"@, b3);
    lemma_bytes_within(human_bytes(m), b4);
    lemma_text_within("auth"@, b5);
    match auth_bytes(m) {
        Some(a) => {
            lemma_bytes_within(a, b6);
        },
        None => {
            lemma_null(b6);
        },
    }
    lemma_text_within("attachments"@, b7);
    lemma_array(n, b8);
    lemma_take_contents(contents_of(m), Seq::empty());
}

/// Two lists of attachments that differ in content at most.
pub open spec fn same_metadata(a: Seq<AttachmentModel>, b: Seq<AttachmentModel>) -> bool {
    &&& a.len() == b.len()
    &&& forall|i: int|
        0 <= i < a.len() ==> (#[trigger] a[i]).id == b[i].id && a[i].name == b[i].name && a[i].mime
            == b[i].mime && a[i].size == b[i].size && a[i].sha256 == b[i].sha256
}

/// Metadata alone decides the encoding of a list of attachments.
proof fn lemma_metadata_bytes(a: Seq<AttachmentModel>, b: Seq<AttachmentModel>, t: Seq<u8>)
    requires
        same_metadata(a, b),
    ensures
        attachments_tail(a, t) == attachments_tail(b, t),
    decreases a.len(),
{
    if a.len() > 0 {
        assert(same_metadata(a.skip(1), b.skip(1))) by {
            assert forall|i: int| 0 <= i < a.skip(1).len() implies (#[trigger] a.skip(1)[i]).id
                == b.skip(1)[i].id && a.skip(1)[i].name == b.skip(1)[i].name && a.skip(1)[i].mime
                == b.skip(1)[i].mime && a.skip(1)[i].size == b.skip(1)[i].size && a.skip(
                1,
            )[i].sha256 == b.skip(1)[i].sha256 by {
                assert(a[i + 1].id == b[i + 1].id);
            }
        }
        lemma_metadata_bytes(a.skip(1), b.skip(1), t);
        assert(a[0].id == b[0].id);
    }
}

/// File bytes decide neither the encodings nor the limits of a record.
pub proof fn lemma_content_irrelevant(a: RecordModel, b: RecordModel)
    requires
        a.kind == b.kind,
        a.human == b.human,
        a.auth == b.auth,
        same_metadata(a.attachments, b.attachments),
    ensures
        human_bytes(a) == human_bytes(b),
        auth_bytes(a) == auth_bytes(b),
        shape_valid(a) == shape_valid(b),
{
    lemma_metadata_bytes(a.attachments, b.attachments, Seq::empty());
    assert forall|i: int| 0 <= i < a.attachments.len() implies (#[trigger] a.attachments[i]).id
        == b.attachments[i].id by {
    }
    assert forall|i: int| 0 <= i < a.attachments.len() implies (#[trigger] b.attachments[i]).id
        == a.attachments[i].id && b.attachments[i].name == a.attachments[i].name
        && b.attachments[i].mime == a.attachments[i].mime && b.attachments[i].size
        == a.attachments[i].size by {
        assert(a.attachments[i].id == b.attachments[i].id);
    }
    assert(ids_distinct(a.attachments) == ids_distinct(b.attachments));
}

/// The record with the bytes of its first `k` files only.
pub open spec fn partial(m: RecordModel, k: int) -> RecordModel {
    RecordModel {
        attachments: Seq::new(
            m.attachments.len(),
            |i: int|
                if i < k {
                    m.attachments[i]
                } else {
                    AttachmentModel { content: Seq::empty(), ..m.attachments[i] }
                },
        ),
        ..m
    }
}

/// A search from `i` on passes over other identifiers.
proof fn lemma_find(v: Seq<AttachmentModel>, id: Seq<u8>, i: int, k: int)
    requires
        0 <= i <= k < v.len(),
        v[k].id@ == id,
        forall|j: int| i <= j < k ==> (#[trigger] v[j]).id@ != id,
    ensures
        find_attachment(v, id, i) == Some(k),
    decreases k - i,
{
    if i < k {
        assert(v[i].id@ != id);
        lemma_find(v, id, i + 1, k);
    }
}

/// A successful search names an attachment with that identifier.
proof fn lemma_found(v: Seq<AttachmentModel>, id: Seq<u8>, i: int)
    requires
        0 <= i,
        find_attachment(v, id, i) is Some,
    ensures
        ({
            let k = find_attachment(v, id, i)->0;
            i <= k < v.len() && v[k].id@ == id
        }),
    decreases v.len() - i,
{
    if i < v.len() && v[i].id@ != id {
        lemma_found(v, id, i + 1);
    }
}

/// A search looks at identifiers alone.
proof fn lemma_find_same(a: Seq<AttachmentModel>, b: Seq<AttachmentModel>, id: Seq<u8>, i: int)
    requires
        0 <= i,
        same_metadata(a, b),
    ensures
        find_attachment(a, id, i) == find_attachment(b, id, i),
    decreases a.len() - i,
{
    if i < a.len() {
        assert(a[i].id == b[i].id);
        lemma_find_same(a, b, id, i + 1);
    }
}

/// Putting the next file in leads from one partial record to the next.
proof fn lemma_partial_step(m: RecordModel, digests: Seq<[u8; 32]>, k: int)
    requires
        ids_distinct(m.attachments),
        files_complete(m.attachments, digests),
        0 <= k < m.attachments.len(),
    ensures
        with_content(
            partial(m, k),
            m.attachments[k].id@,
            m.attachments[k].content,
            digests[k]@,
        ) == Some(partial(m, k + 1)),
{
    let v = partial(m, k).attachments;
    assert forall|j: int| 0 <= j < k implies (#[trigger] v[j]).id@ != m.attachments[k].id@ by {
        if v[j].id@ == m.attachments[k].id@ {
            lemma_array16(m.attachments[j].id, m.attachments[k].id);
        }
    }
    lemma_find(v, m.attachments[k].id@, 0, k);
    assert(m.attachments[k].size == m.attachments[k].content.len());
    assert(v.update(
        k,
        AttachmentModel { content: m.attachments[k].content, ..v[k] },
    ) =~= partial(m, k + 1).attachments);
}

/// What a complete encoding must be to decode: that of a valid record whose
/// files `digests` complete.
pub open spec fn complete_encoding(m: RecordModel, b: Seq<u8>, digests: Seq<[u8; 32]>) -> bool {
    &&& full_bytes(m) == b
    &&& shape_valid(m)
    &&& files_complete(m.attachments, digests)
}

/// Whether decoding stops at a file: the encoding opens, its record decodes,
/// but the bytes of some file do not belong to it.
pub open spec fn content_refused(b: Seq<u8>, digests: Seq<[u8; 32]>) -> bool {
    match open_envelope(b) {
        Some(e) => {
            &&& digests.len() == e.contents.len()
            &&& exists|m: RecordModel| #[trigger]
                parts_of(m, e.human, e.auth) && with_contents(m, e.contents, digests, 0) is None
        },
        None => false,
    }
}

impl LogicalRecord {
    /// Encodes the complete record, file bytes included.
    pub fn to_bytes(&self) -> (r: Vec<u8>)
        ensures
            r@ == full_bytes(self@),
    {
        let human = self.encode_human();
        let auth = self.encode_auth();
        let mut w = Writer::new();
        let ghost all = full_bytes(self@);
        let ghost contents = contents_of(self@);
        assert(w@ + all == all);
        w.map(4);
        w.str("v");
        w.u8(1);
        w.str("human");
        w.bytes(&human);
        w.str("auth");
        match &auth {
            Some(v) => w.bytes(v.as_slice()),
            None => w.null(),
        }
        w.str("attachments");
        w.array(self.attachments.len() as u64);
        let mut i: usize = 0;
        assert(contents.skip(0) =~= contents);
        while i < self.attachments.len()
            invariant
                i <= self.attachments@.len(),
                contents == contents_of(self@),
                w@ + contents_tail(contents.skip(i as int), Seq::empty()) == all,
            decreases self.attachments@.len() - i,
        {
            let ghost next = contents_tail(contents.skip(i + 1), Seq::empty());
            assert(contents.skip(i as int).skip(1) =~= contents.skip(i + 1));
            assert(w@ + content_then(contents[i as int], next) == all);
            w.map(2);
            w.str("id");
            w.bytes(&self.attachments[i].id);
            w.str("content");
            w.bytes(self.attachments[i].content.as_slice());
            i += 1;
        }
        assert(contents.skip(i as int) =~= Seq::empty());
        w.finish()
    }

    /// The bytes of the files inside a complete encoding, in order.
    pub fn embedded_contents(bytes: &[u8]) -> (r: Option<Vec<Vec<u8>>>)
        ensures
            match open_envelope(bytes@) {
                Some(e) => r is Some && (r->0)@.len() == e.contents.len() && forall|i: int|
                    0 <= i < e.contents.len() ==> (#[trigger] (r->0)@[i])@ == e.contents[i].1,
                None => r is None,
            },
    {
        let envelope = read_envelope(bytes)?;
        let mut out: Vec<Vec<u8>> = Vec::new();
        let mut i: usize = 0;
        while i < envelope.contents.len()
            invariant
                i <= envelope.contents@.len(),
                out@.len() == i,
                forall|j: int| 0 <= j < i ==> (#[trigger] out@[j])@ == envelope.contents@[j].1@,
            decreases envelope.contents@.len() - i,
        {
            out.push(slice_to_vec(envelope.contents[i].1.as_slice()));
            i += 1;
        }
        Some(out)
    }

    /// Puts the bytes of several files in, one after another.
    fn restore_contents(&mut self, contents: &Vec<([u8; 16], Vec<u8>)>,
        digests: &Vec<[u8; 32]>) -> (r:
        Result<(), HumanCommitError>)
        requires
            contents@.len() == digests@.len(),
        ensures
            match with_contents(old(self)@, pairs(contents@), digests@, 0) {
                Some(m) => r is Ok && final(self)@ == m,
                None => r is Err && r->Err_0 is InvalidCommand,
            },
    {
        let mut i: usize = 0;
        while i < contents.len()
            invariant
                i <= contents@.len() == digests@.len(),
                with_contents(old(self)@, pairs(contents@), digests@, 0) == with_contents(
                    self@,
                    pairs(contents@),
                    digests@,
                    i as int,
                ),
            decreases contents@.len() - i,
        {
            let content = slice_to_vec(contents[i].1.as_slice());
            self.restore_attachment(contents[i].0, content, digests[i])?;
            i += 1;
        }
        Ok(())
    }

    /// Decodes a complete record strictly; `digests` are those of the file
    /// bytes it holds, in order.
    pub fn from_bytes(bytes: &[u8], digests: &Vec<[u8; 32]>) -> (r: Result<
        LogicalRecord,
        HumanCommitError,
    >)
        ensures
            forall|m: RecordModel|
                bytes@.len() <= 2 * MAX_LOGICAL_RECORD && #[trigger] complete_encoding(
                    m,
                    bytes@,
                    digests@,
                ) ==> r is Ok && (r->Ok_0)@ == m,
            r is Ok ==> bytes@.len() <= 2 * MAX_LOGICAL_RECORD && complete_encoding(
                (r->Ok_0)@,
                bytes@,
                digests@,
            ),
            r is Err ==> if bytes@.len() <= 2 * MAX_LOGICAL_RECORD && content_refused(
                bytes@,
                digests@,
            ) {
                r->Err_0 is InvalidCommand
            } else {
                r->Err_0 is InvalidInput
            },
    {
        if bytes.len() > 2 * MAX_LOGICAL_RECORD {
            return Err(HumanCommitError::InvalidInput);
        }
        let ghost wanted = open_envelope(bytes@);
        proof {
            assert forall|m: RecordModel| #[trigger]
                complete_encoding(m, bytes@, digests@) implies wanted is Some && parts_of(
                partial(m, 0),
                (wanted->0).human,
                (wanted->0).auth,
            ) && (wanted->0).contents.len() == digests@.len() && with_contents(
                partial(m, 0),
                (wanted->0).contents,
                digests@,
                0,
            ) == Some(m) by {
                lemma_complete_opens(m, bytes@, digests@);
            }
        }
        let envelope = match read_envelope(bytes) {
            Some(v) => v,
            None => {
                return Err(HumanCommitError::InvalidInput);
            },
        };
        let ghost e = envelope@;
        if digests.len() != envelope.contents.len() {
            return Err(HumanCommitError::InvalidInput);
        }
        let auth_part = match &envelope.auth {
            Some(v) => Some(v.as_slice()),
            None => None,
        };
        assert(opt_view(auth_part) == e.auth);
        let mut record = match LogicalRecord::decode_parts(envelope.human.as_slice(), auth_part) {
            Ok(v) => v,
            Err(error) => {
                return Err(error);
            },
        };
        let ghost x = record@;
        assert(parts_of(x, e.human, e.auth));
        assert forall|m: RecordModel| #[trigger]
            parts_of(m, e.human, e.auth) implies m == x by {}
        match record.restore_contents(&envelope.contents, digests) {
            Ok(()) => {},
            Err(error) => {
                return Err(error);
            },
        }
        assert(with_contents(x, e.contents, digests@, 0) == Some(record@));
        if !same(&record.to_bytes(), bytes) {
            return Err(HumanCommitError::InvalidInput);
        }
        proof {
            lemma_restored_complete(x, record@, bytes@, digests@);
        }
        Ok(record)
    }
}

/// A complete encoding opens to parts that restore the record.
proof fn lemma_complete_opens(m: RecordModel, b: Seq<u8>, digests: Seq<[u8; 32]>)
    requires
        complete_encoding(m, b, digests),
        b.len() <= u64::MAX,
    ensures
        open_envelope(b) is Some,
        ({
            let e = open_envelope(b)->0;
            &&& parts_of(partial(m, 0), e.human, e.auth)
            &&& e.contents.len() == digests.len()
            &&& with_contents(partial(m, 0), e.contents, digests, 0) == Some(m)
        }),
{
    lemma_open_envelope(m);
    lemma_content_irrelevant(m, partial(m, 0));
    lemma_with_contents_all(m, digests, 0);
}

/// Putting in the files from `k` on completes a record that has those before.
proof fn lemma_with_contents_all(m: RecordModel, digests: Seq<[u8; 32]>, k: int)
    requires
        ids_distinct(m.attachments),
        files_complete(m.attachments, digests),
        0 <= k <= m.attachments.len(),
    ensures
        with_contents(partial(m, k), content_pairs(contents_of(m)), digests, k) == Some(m),
    decreases m.attachments.len() - k,
{
    if k < m.attachments.len() {
        lemma_partial_step(m, digests, k);
        lemma_with_contents_all(m, digests, k + 1);
    } else {
        assert(partial(m, k).attachments =~= m.attachments);
    }
}

/// Putting files in leaves everything but content as it was, and each file put
/// in has the size and digest declared for it.
proof fn lemma_with_contents_keeps(
    m: RecordModel,
    contents: Seq<(Seq<u8>, Seq<u8>)>,
    digests: Seq<[u8; 32]>,
    i: int,
)
    requires
        0 <= i <= contents.len(),
        with_contents(m, contents, digests, i) is Some,
    ensures
        ({
            let n = with_contents(m, contents, digests, i)->0;
            &&& n.kind == m.kind
            &&& n.human == m.human
            &&& n.auth == m.auth
            &&& same_metadata(m.attachments, n.attachments)
            &&& forall|j: int|
                i <= j < contents.len() ==> #[trigger] file_accepted(
                    m.attachments,
                    contents[j],
                    digests[j]@,
                )
        }),
    decreases contents.len() - i,
{
    if i < contents.len() {
        let next = with_content(m, contents[i].0, contents[i].1, digests[i]@)->0;
        lemma_found(m.attachments, contents[i].0, 0);
        assert(same_metadata(m.attachments, next.attachments));
        lemma_with_contents_keeps(next, contents, digests, i + 1);
        let n = with_contents(m, contents, digests, i)->0;
        assert forall|j: int| 0 <= j < m.attachments.len() implies (#[trigger] m.attachments[j]).id
            == n.attachments[j].id && m.attachments[j].name == n.attachments[j].name
            && m.attachments[j].mime == n.attachments[j].mime && m.attachments[j].size
            == n.attachments[j].size && m.attachments[j].sha256 == n.attachments[j].sha256 by {
            assert(m.attachments[j].id == next.attachments[j].id);
            assert(next.attachments[j].id == n.attachments[j].id);
        }
        assert forall|j: int| i <= j < contents.len() implies #[trigger] file_accepted(
            m.attachments,
            contents[j],
            digests[j]@,
        ) by {
            if j > i {
                assert(file_accepted(next.attachments, contents[j], digests[j]@));
                lemma_find_same(m.attachments, next.attachments, contents[j].0, 0);
                lemma_found(m.attachments, contents[j].0, 0);
                let k = find_attachment(m.attachments, contents[j].0, 0)->0;
                assert(m.attachments[k].id == next.attachments[k].id);
            }
        }
    }
}

/// Whether file bytes with that digest are those some attachment declares.
pub open spec fn file_accepted(
    v: Seq<AttachmentModel>,
    file: (Seq<u8>, Seq<u8>),
    digest: Seq<u8>,
) -> bool {
    match find_attachment(v, file.0, 0) {
        Some(k) => v[k].size == file.1.len() && digest == v[k].sha256@,
        None => false,
    }
}

/// A record restored from the parts of an encoding that it encodes to is
/// complete.
proof fn lemma_restored_complete(
    x: RecordModel,
    m: RecordModel,
    b: Seq<u8>,
    digests: Seq<[u8; 32]>,
)
    requires
        open_envelope(b) is Some,
        ({
            let e = open_envelope(b)->0;
            &&& parts_of(x, e.human, e.auth)
            &&& e.contents.len() == digests.len()
            &&& with_contents(x, e.contents, digests, 0) == Some(m)
        }),
        full_bytes(m) == b,
        b.len() <= u64::MAX,
    ensures
        complete_encoding(m, b, digests),
{
    let e = open_envelope(b)->0;
    lemma_open_envelope(m);
    lemma_with_contents_keeps(x, e.contents, digests, 0);
    lemma_content_irrelevant(x, m);
    assert forall|j: int| 0 <= j < m.attachments.len() implies (#[trigger] m.attachments[j]).size
        == m.attachments[j].content.len() && digests[j]@ == m.attachments[j].sha256@ by {
        assert(e.contents[j] == (m.attachments[j].id@, m.attachments[j].content));
        assert(file_accepted(x.attachments, e.contents[j], digests[j]@));
        let k = find_attachment(x.attachments, e.contents[j].0, 0)->0;
        lemma_found(x.attachments, e.contents[j].0, 0);
        assert(x.attachments[k].id == m.attachments[k].id);
        assert(x.attachments[j].id == m.attachments[j].id);
        lemma_array16(x.attachments[k].id, x.attachments[j].id);
        assert(k == j);
    }
}

/// A custom field whose value has been erased.
pub open spec fn erased_field(f: FieldModel) -> FieldModel {
    FieldModel {
        value: match f.value {
            ValueModel::Text(_) => ValueModel::Text(Seq::empty()),
            ValueModel::Bytes(_) => ValueModel::Bytes(Seq::empty()),
        },
        ..f
    }
}

/// Thirty-two zero bytes.
pub open spec fn is_zero_key(key: [u8; 32]) -> bool {
    key@ == Seq::new(32, |i: int| 0u8)
}

/// One way to authenticate whose secrets have been erased: `b` is `a` with
/// them emptied or zeroed.
pub open spec fn auth_erased(a: AuthModel, b: AuthModel) -> bool {
    match a {
        AuthModel::Password { username, destination_refs, .. } => b == (AuthModel::Password {
            username,
            password: Seq::empty(),
            destination_refs,
        }),
        AuthModel::Totp { algorithm, digits, period, t0, issuer, account, destination_refs, .. } =>
            b == (AuthModel::Totp {
            secret: Seq::empty(),
            algorithm,
            digits,
            period,
            t0,
            issuer,
            account,
            destination_refs,
        }),
        AuthModel::Passkey {
            rp_id,
            user_handle,
            credential_id,
            cose_alg,
            public_key,
            user_name,
            display_name,
            sign_count,
            backup_eligible,
            backup_state,
            ..
        } => match b {
            AuthModel::Passkey { private_key, .. } => is_zero_key(private_key) && b == (
            AuthModel::Passkey {
                rp_id,
                user_handle,
                credential_id,
                cose_alg,
                private_key,
                public_key,
                user_name,
                display_name,
                sign_count,
                backup_eligible,
                backup_state,
            }),
            _ => false,
        },
        AuthModel::Ssh {
            private_format,
            public_key,
            username,
            destination_refs,
            passphrase,
            ..
        } => b == (AuthModel::Ssh {
            private_format,
            private_key: Seq::empty(),
            public_key,
            username,
            destination_refs,
            passphrase: match passphrase {
                Some(_) => Some(Seq::empty()),
                None => None,
            },
        }),
        AuthModel::Token { provider, profile_id, destination_refs, expires_at, .. } => b == (
        AuthModel::Token {
            secret: Seq::empty(),
            provider,
            profile_id,
            destination_refs,
            expires_at,
        }),
    }
}

/// Erases the secrets of one way to authenticate.
fn wipe_auth(auth: &mut AuthRecord)
    ensures
        auth_erased(old(auth)@, final(auth)@),
    opens_invariants none
    no_unwind
{
    match auth {
        AuthRecord::Password { password, .. } => wipe_bytes(password),
        AuthRecord::Totp { secret, .. } => wipe_bytes(secret),
        AuthRecord::Token { secret, .. } => wipe_bytes(secret),
        AuthRecord::Passkey { private_key, .. } => wipe_key(private_key),
        AuthRecord::Ssh { private_key, passphrase, .. } => {
            wipe_bytes(private_key);
            if let Some(value) = passphrase {
                wipe_bytes(value);
            }
        },
    }
}

impl LogicalRecord {
    /// Replaces tags and favorite; the record is left changed and must then be
    /// valid. The bytes of its files do not matter: those of a streamed file are
    /// kept elsewhere.
    pub fn set_organization(&mut self, tags: Vec<String>, favorite: bool) -> (r: Result<
        (),
        HumanCommitError,
    >)
        ensures
            final(self)@ == (RecordModel {
                human: HumanModel { tags: views(tags@), favorite, ..old(self)@.human },
                ..old(self)@
            }),
            r is Ok <==> shape_valid(final(self)@),
            r is Err ==> r->Err_0 is InvalidInput,
    {
        self.human.tags = tags;
        self.human.favorite = favorite;
        self.validate_descriptors()
    }

    /// Validates a complete record under the digests of its file bytes.
    pub fn validate_complete(&self, digests: &Vec<[u8; 32]>) -> (r: Result<(), HumanCommitError>)
        ensures
            r is Ok <==> shape_valid(self@) && files_complete(self@.attachments, digests@),
            r is Err ==> r->Err_0 is InvalidInput,
    {
        if self.shape_ok() && all_files_complete(&self.attachments, digests) {
            Ok(())
        } else {
            Err(HumanCommitError::InvalidInput)
        }
    }

    /// Validates a record whose file bytes are kept elsewhere.
    pub fn validate_descriptors(&self) -> (r: Result<(), HumanCommitError>)
        ensures
            r is Ok <==> shape_valid(self@),
            r is Err ==> r->Err_0 is InvalidInput,
    {
        if self.shape_ok() {
            Ok(())
        } else {
            Err(HumanCommitError::InvalidInput)
        }
    }

    /// Identifier and bytes of each file, in order.
    pub fn attachment_inputs(&self) -> (r: Vec<([u8; 16], Vec<u8>)>)
        ensures
            pairs(r@) == content_pairs(contents_of(self@)),
    {
        let mut out: Vec<([u8; 16], Vec<u8>)> = Vec::new();
        let mut i: usize = 0;
        while i < self.attachments.len()
            invariant
                i <= self.attachments@.len(),
                out@.len() == i,
                forall|j: int|
                    0 <= j < i ==> (#[trigger] out@[j]).0 == self@.attachments[j].id && out@[j].1@
                        == self@.attachments[j].content,
            decreases self.attachments@.len() - i,
        {
            out.push(
                (self.attachments[i].id, slice_to_vec(self.attachments[i].content.as_slice())),
            );
            i += 1;
        }
        assert(pairs(out@) =~= content_pairs(contents_of(self@)));
        out
    }

    /// Erases the secrets of the record from memory: notes, field values, keys
    /// and file bytes.
    pub fn wipe(&mut self)
        ensures
            final(self)@.kind == old(self)@.kind,
            final(self)@.human == (HumanModel {
                notes: Seq::empty(),
                fields: Seq::new(
                    old(self)@.human.fields.len(),
                    |i: int| erased_field(old(self)@.human.fields[i]),
                ),
                source_fields: Seq::new(
                    old(self)@.human.source_fields.len(),
                    |i: int|
                        SourceFieldModel {
                            value: Seq::empty(),
                            ..old(self)@.human.source_fields[i]
                        },
                ),
                ..old(self)@.human
            }),
            final(self)@.auth.len() == old(self)@.auth.len(),
            forall|i: int|
                0 <= i < old(self)@.auth.len() ==> auth_erased(
                    old(self)@.auth[i],
                    #[trigger] final(self)@.auth[i],
                ),
            final(self)@.attachments == Seq::new(
                old(self)@.attachments.len(),
                |i: int| AttachmentModel { content: Seq::empty(), ..old(self)@.attachments[i] },
            ),
    {
        wipe_text(&mut self.human.notes);
        wipe_fields(&mut self.human.fields);
        wipe_source_fields(&mut self.human.source_fields);
        wipe_auths(&mut self.auth);
        wipe_contents(&mut self.attachments);
    }
}

impl Drop for LogicalRecord {
    /// Erases the notes when the record is released; fields, ways to
    /// authenticate and files erase their own secrets.
    fn drop(&mut self)
        ensures
            final(self)@ == (RecordModel {
                human: HumanModel { notes: Seq::empty(), ..old(self)@.human },
                ..old(self)@
            }),
        opens_invariants none
        no_unwind
    {
        wipe_text(&mut self.human.notes);
    }
}

impl Drop for CustomField {
    /// Erases the value when the field is released.
    fn drop(&mut self)
        ensures
            final(self)@ == erased_field(old(self)@),
        opens_invariants none
        no_unwind
    {
        wipe_field(self);
    }
}

impl Drop for SourceField {
    /// Erases the value when the field is released.
    fn drop(&mut self)
        ensures
            final(self)@ == (SourceFieldModel { value: Seq::empty(), ..old(self)@ }),
        opens_invariants none
        no_unwind
    {
        wipe_bytes(&mut self.value);
    }
}

impl Drop for AuthRecord {
    /// Erases the secrets when the record is released.
    fn drop(&mut self)
        ensures
            auth_erased(old(self)@, final(self)@),
        opens_invariants none
        no_unwind
    {
        wipe_auth(self);
    }
}

impl Drop for Attachment {
    /// Erases the bytes when the file is released.
    fn drop(&mut self)
        ensures
            final(self)@ == (AttachmentModel { content: Seq::empty(), ..old(self)@ }),
        opens_invariants none
        no_unwind
    {
        wipe_bytes(&mut self.content);
    }
}

/// Erases the value of a custom field.
fn wipe_field(field: &mut CustomField)
    ensures
        final(field)@ == erased_field(old(field)@),
    opens_invariants none
    no_unwind
{
    match &mut field.value {
        LogicalValue::Text(v) => wipe_text(v),
        LogicalValue::Bytes(v) => wipe_bytes(v),
    }
}

/// Erases the values of custom fields.
fn wipe_fields(values: &mut Vec<CustomField>)
    ensures
        views(final(values)@) == Seq::new(
            old(values)@.len(),
            |i: int| erased_field(views(old(values)@)[i]),
        ),
{
    let mut i: usize = 0;
    while i < values.len()
        invariant
            i <= values@.len() == old(values)@.len(),
            forall|j: int| 0 <= j < i ==> (#[trigger] values@[j])@
                == erased_field(old(values)@[j]@),
            forall|j: int| i <= j < values@.len() ==> #[trigger] values@[j] == old(values)@[j],
        decreases values@.len() - i,
    {
        wipe_field(&mut values[i]);
        i += 1;
    }
    assert(views(values@) =~= Seq::new(
        old(values)@.len(),
        |k: int| erased_field(views(old(values)@)[k]),
    ));
}

/// Erases the values of source fields.
fn wipe_source_fields(values: &mut Vec<SourceField>)
    ensures
        views(final(values)@) == Seq::new(
            old(values)@.len(),
            |i: int| SourceFieldModel { value: Seq::empty(), ..views(old(values)@)[i] },
        ),
{
    let mut i: usize = 0;
    while i < values.len()
        invariant
            i <= values@.len() == old(values)@.len(),
            forall|j: int|
                0 <= j < i ==> (#[trigger] values@[j])@ == (SourceFieldModel {
                    value: Seq::empty(),
                    ..old(values)@[j]@
                }),
            forall|j: int| i <= j < values@.len() ==> #[trigger] values@[j] == old(values)@[j],
        decreases values@.len() - i,
    {
        wipe_bytes(&mut values[i].value);
        i += 1;
    }
    assert(views(values@) =~= Seq::new(
        old(values)@.len(),
        |k: int| SourceFieldModel { value: Seq::empty(), ..views(old(values)@)[k] },
    ));
}

/// Erases the secrets of all ways to authenticate.
fn wipe_auths(values: &mut Vec<AuthRecord>)
    ensures
        final(values)@.len() == old(values)@.len(),
        forall|i: int|
            0 <= i < old(values)@.len() ==> auth_erased(
                views(old(values)@)[i],
                #[trigger] views(final(values)@)[i],
            ),
{
    let mut i: usize = 0;
    while i < values.len()
        invariant
            i <= values@.len() == old(values)@.len(),
            forall|j: int|
                0 <= j < i ==> auth_erased(old(values)@[j]@, (#[trigger] values@[j])@),
            forall|j: int| i <= j < values@.len() ==> #[trigger] values@[j] == old(values)@[j],
        decreases values@.len() - i,
    {
        wipe_auth(&mut values[i]);
        i += 1;
    }
    assert forall|j: int| 0 <= j < old(values)@.len() implies auth_erased(
        views(old(values)@)[j],
        #[trigger] views(values@)[j],
    ) by {
        assert(auth_erased(old(values)@[j]@, values@[j]@));
    }
}

/// Erases the bytes of files.
fn wipe_contents(values: &mut Vec<Attachment>)
    ensures
        views(final(values)@) == Seq::new(
            old(values)@.len(),
            |i: int| AttachmentModel { content: Seq::empty(), ..views(old(values)@)[i] },
        ),
{
    let mut i: usize = 0;
    while i < values.len()
        invariant
            i <= values@.len() == old(values)@.len(),
            forall|j: int|
                0 <= j < i ==> (#[trigger] values@[j])@ == (AttachmentModel {
                    content: Seq::empty(),
                    ..old(values)@[j]@
                }),
            forall|j: int| i <= j < values@.len() ==> #[trigger] values@[j] == old(values)@[j],
        decreases values@.len() - i,
    {
        wipe_bytes(&mut values[i].content);
        i += 1;
    }
    assert(views(values@) =~= Seq::new(
        old(values)@.len(),
        |k: int| AttachmentModel { content: Seq::empty(), ..views(old(values)@)[k] },
    ));
}

/// The names of the kinds of records.
pub proof fn lemma_kind_names(kind: RecordKind)
    ensures
        kind is Password ==> kind_name(kind) == "password"@,
        kind is Totp ==> kind_name(kind) == "totp"@,
        kind is Passkey ==> kind_name(kind) == "passkey"@,
        kind is Ssh ==> kind_name(kind) == "ssh"@,
        kind is Token ==> kind_name(kind) == "token"@,
        kind is Note ==> kind_name(kind) == "note"@,
        kind is File ==> kind_name(kind) == "file"@,
{
}

/// The names of encodings, algorithms and formats.
pub proof fn lemma_part_names(e: SourceEncoding, a: TotpAlgorithm, f: PrivateKeyFormat)
    ensures
        e is Utf8 ==> source_encoding_name(e) == "utf8"@,
        e is Json ==> source_encoding_name(e) == "json"@,
        e is Bytes ==> source_encoding_name(e) == "bytes"@,
        a is Sha1 ==> totp_algorithm_name(a) == "SHA1"@,
        a is Sha256 ==> totp_algorithm_name(a) == "SHA256"@,
        a is Sha512 ==> totp_algorithm_name(a) == "SHA512"@,
        f is OpenSsh ==> private_key_format_name(f) == "openssh"@,
        f is Pkcs8 ==> private_key_format_name(f) == "pkcs8"@,
{
}

/// What a record of a kind authenticates with: a password exactly one password
/// and otherwise only one-time codes, the other kinds exactly one of their own,
/// notes and files nothing, and a file holds at least one file.
pub proof fn lemma_kind_auth(m: RecordModel)
    requires
        shape_valid(m),
    ensures
        m.kind is Password ==> exists|i: int|
            0 <= i < m.auth.len() && #[trigger] m.auth[i] is Password,
        m.kind is Password ==> forall|i: int, j: int|
            0 <= i < j < m.auth.len() ==> !((#[trigger] m.auth[i]) is Password && (
            #[trigger] m.auth[j]) is Password),
        m.kind is Password ==> forall|i: int|
            0 <= i < m.auth.len() ==> (#[trigger] m.auth[i]) is Password || m.auth[i] is Totp,
        m.kind is Totp ==> m.auth.len() == 1 && m.auth[0] is Totp,
        m.kind is Passkey ==> m.auth.len() == 1 && m.auth[0] is Passkey,
        m.kind is Ssh ==> m.auth.len() == 1 && m.auth[0] is Ssh,
        m.kind is Token ==> m.auth.len() == 1 && m.auth[0] is Token,
        m.kind is Note || m.kind is File ==> m.auth.len() == 0,
        m.kind is File ==> m.attachments.len() > 0,
{
    if m.kind is Password {
        let k = choose|i: int| #[trigger] password_at(m.auth, i);
        assert(m.auth[k] is Password);
        assert forall|i: int| 0 <= i < m.auth.len() && i != k implies (
        #[trigger] m.auth[i]) is Totp by {}
    }
}

/// A list of ways to authenticate that suits a kind is accepted for it.
pub proof fn lemma_kind_suits(auth: Seq<AuthModel>, files: Seq<AttachmentModel>, k: int)
    ensures
        0 <= k < auth.len() && auth[k] is Password && (forall|j: int|
            0 <= j < auth.len() && j != k ==> (#[trigger] auth[j]) is Totp) ==> kind_matches(
            RecordKind::Password,
            auth,
            files,
        ),
        auth.len() == 1 && auth[0] is Totp ==> kind_matches(RecordKind::Totp, auth, files),
        auth.len() == 1 && auth[0] is Passkey ==> kind_matches(RecordKind::Passkey, auth, files),
        auth.len() == 1 && auth[0] is Ssh ==> kind_matches(RecordKind::Ssh, auth, files),
        auth.len() == 1 && auth[0] is Token ==> kind_matches(RecordKind::Token, auth, files),
        auth.len() == 0 ==> kind_matches(RecordKind::Note, auth, files),
        auth.len() == 0 && files.len() > 0 ==> kind_matches(RecordKind::File, auth, files),
{
    if 0 <= k < auth.len() && auth[k] is Password && (forall|j: int|
        0 <= j < auth.len() && j != k ==> (#[trigger] auth[j]) is Totp) {
        assert(password_at(auth, k));
    }
}

/// References to destinations ascend, and each is to one that there is.
pub open spec fn refers(refs: Seq<u16>, destinations: int) -> bool {
    &&& forall|i: int, j: int|
        0 <= i < j < refs.len() ==> #[trigger] refs[i] < #[trigger] refs[j]
    &&& forall|i: int| 0 <= i < refs.len() ==> #[trigger] refs[i] < destinations
}

/// The limits of each way to authenticate.
pub proof fn lemma_auth_limits(auth: AuthModel, destinations: int)
    ensures
        auth matches AuthModel::Password { username, password, destination_refs } ==> (auth_valid(
            auth,
            destinations,
        ) <==> encode_utf8(username).len() <= 1048576 && password.len() <= 1048576 && refers(
            destination_refs,
            destinations,
        )),
        auth matches AuthModel::Totp {
            secret,
            digits,
            period,
            t0,
            issuer,
            account,
            destination_refs,
            ..
        } ==> (auth_valid(auth, destinations) <==> 10 <= secret.len() <= 128 && (digits == 6
            || digits == 8) && 15 <= period <= 120 && t0 == 0 && encode_utf8(issuer).len()
            <= 1048576 && encode_utf8(account).len() <= 1048576 && refers(
            destination_refs,
            destinations,
        )),
        auth matches AuthModel::Passkey {
            rp_id,
            user_handle,
            credential_id,
            cose_alg,
            user_name,
            display_name,
            ..
        } ==> (auth_valid(auth, destinations) <==> encode_utf8(rp_id).len() <= 8192
            && user_handle.len() <= 64 && 1 <= credential_id.len() <= 1024 && cose_alg == -8
            && encode_utf8(user_name).len() <= 1048576 && encode_utf8(display_name).len()
            <= 1048576),
        auth matches AuthModel::Ssh {
            private_key,
            public_key,
            username,
            destination_refs,
            passphrase,
            ..
        } ==> (auth_valid(auth, destinations) <==> private_key.len() <= 1048576 && public_key.len()
            <= 1048576 && encode_utf8(username).len() <= 1048576 && (passphrase matches Some(p)
            ==> p.len() <= 1048576) && refers(destination_refs, destinations)),
        auth matches AuthModel::Token { secret, provider, profile_id, destination_refs, .. } ==> (
        auth_valid(auth, destinations) <==> secret.len() <= 1048576 && encode_utf8(provider).len()
            <= 1024 && encode_utf8(profile_id).len() <= 1024 && refers(
            destination_refs,
            destinations,
        )),
{
    match auth {
        AuthModel::Password { destination_refs, .. } => lemma_refers(
            destination_refs,
            destinations,
        ),
        AuthModel::Totp { destination_refs, .. } => lemma_refers(destination_refs, destinations),
        AuthModel::Ssh { destination_refs, .. } => lemma_refers(destination_refs, destinations),
        AuthModel::Token { destination_refs, .. } => lemma_refers(destination_refs, destinations),
        _ => {},
    }
}

/// The two ways to say that references are valid.
proof fn lemma_refers(refs: Seq<u16>, destinations: int)
    ensures
        refs_valid(refs, destinations) == refers(refs, destinations),
{
    if refers(refs, destinations) {
        assert forall|i: int, j: int| 0 <= i < j < refs.len() implies refs[i] < refs[j] by {}
    }
}

/// The limits of a record: how long its texts are, how many there are, what a
/// text that was imported decodes as, that its files have identifiers of their
/// own, and how long it is in all.
pub proof fn lemma_record_limits(m: RecordModel, i: int)
    requires
        shape_valid(m),
    ensures
        encode_utf8(m.human.title).len() <= 1024,
        encode_utf8(m.human.notes).len() <= 1048576,
        m.human.fields.len() <= 256,
        m.human.destinations.len() <= 256,
        m.human.tags.len() <= 1024,
        0 <= i < m.human.destinations.len() ==> encode_utf8(m.human.destinations[i].label).len()
            <= 1024 && encode_utf8(m.human.destinations[i].value).len() <= 8192,
        0 <= i < m.human.tags.len() ==> encode_utf8(m.human.tags[i]).len() <= 1024,
        0 <= i < m.human.fields.len() ==> encode_utf8(m.human.fields[i].label).len() <= 1024 && (
        m.human.fields[i].value matches ValueModel::Text(s) ==> encode_utf8(s).len() <= 1048576)
            && (m.human.fields[i].value matches ValueModel::Bytes(s) ==> s.len() <= 1048576),
        0 <= i < m.human.source_fields.len() ==> encode_utf8(m.human.source_fields[i].path).len()
            <= 1024 && m.human.source_fields[i].value.len() <= 1048576 && (
        m.human.source_fields[i].encoding is Utf8 || m.human.source_fields[i].encoding is Json
            ==> valid_utf8(m.human.source_fields[i].value)),
        0 <= i < m.attachments.len() ==> encode_utf8(m.attachments[i].name).len() <= 1024
            && encode_utf8(m.attachments[i].mime).len() <= 1024 && m.attachments[i].size
            <= 16 * 1024 * 1024 * 1024,
        forall|j: int, k: int|
            0 <= j < k < m.attachments.len() ==> (#[trigger] m.attachments[j]).id != (
            #[trigger] m.attachments[k]).id,
        0 <= i < m.auth.len() ==> auth_valid(m.auth[i], m.human.destinations.len() as int),
        m.auth.len() == 0 ==> human_bytes(m).len() <= 16 * 1024 * 1024,
        m.auth.len() > 0 ==> human_bytes(m).len() + (auth_bytes(m)->0).len() <= 16 * 1024 * 1024,
{
    if 0 <= i < m.human.destinations.len() {
        assert(destination_valid(m.human.destinations[i]));
    }
    if 0 <= i < m.human.tags.len() {
        assert(encode_utf8(m.human.tags[i]).len() <= MAX_TITLE);
    }
    if 0 <= i < m.human.fields.len() {
        assert(field_valid(m.human.fields[i]));
    }
    if 0 <= i < m.human.source_fields.len() {
        assert(source_field_valid(m.human.source_fields[i]));
    }
    if 0 <= i < m.attachments.len() {
        let a = m.attachments[i];
        assert(attachment_within_limits(a.name, a.mime, a.size));
    }
}

/// A record within its limits is accepted.
pub proof fn lemma_record_accepted(m: RecordModel)
    requires
        kind_matches(m.kind, m.auth, m.attachments),
        encode_utf8(m.human.title).len() <= 1024,
        encode_utf8(m.human.notes).len() <= 1048576,
        m.human.fields.len() <= 256,
        m.human.destinations.len() <= 256,
        m.human.tags.len() <= 1024,
        forall|i: int|
            0 <= i < m.human.destinations.len() ==> encode_utf8(
                (#[trigger] m.human.destinations[i]).label,
            ).len() <= 1024 && encode_utf8(m.human.destinations[i].value).len() <= 8192,
        forall|i: int|
            0 <= i < m.human.tags.len() ==> encode_utf8(#[trigger] m.human.tags[i]).len() <= 1024,
        forall|i: int|
            0 <= i < m.human.fields.len() ==> encode_utf8(
                (#[trigger] m.human.fields[i]).label,
            ).len() <= 1024 && match m.human.fields[i].value {
                ValueModel::Text(s) => encode_utf8(s).len() <= 1048576,
                ValueModel::Bytes(s) => s.len() <= 1048576,
            },
        forall|i: int|
            0 <= i < m.human.source_fields.len() ==> encode_utf8(
                (#[trigger] m.human.source_fields[i]).path,
            ).len() <= 1024 && m.human.source_fields[i].value.len() <= 1048576 && (
            m.human.source_fields[i].encoding is Bytes || valid_utf8(
                m.human.source_fields[i].value,
            )),
        forall|i: int|
            0 <= i < m.attachments.len() ==> encode_utf8((#[trigger] m.attachments[i]).name).len()
                <= 1024 && encode_utf8(m.attachments[i].mime).len() <= 1024 && m.attachments[i].size
                <= 16 * 1024 * 1024 * 1024,
        forall|j: int, k: int|
            0 <= j < k < m.attachments.len() ==> (#[trigger] m.attachments[j]).id != (
            #[trigger] m.attachments[k]).id,
        forall|i: int|
            0 <= i < m.auth.len() ==> auth_valid(
                #[trigger] m.auth[i],
                m.human.destinations.len() as int,
            ),
        human_bytes(m).len() + (if m.auth.len() == 0 {
            0
        } else {
            (auth_bytes(m)->0).len() as int
        }) <= 16 * 1024 * 1024,
    ensures
        shape_valid(m),
{
    assert forall|i: int| 0 <= i < m.attachments.len() implies attachment_within_limits(
        (#[trigger] m.attachments[i]).name,
        m.attachments[i].mime,
        m.attachments[i].size,
    ) by {}
    assert(human_valid(m.human)) by {
        assert forall|i: int| 0 <= i < m.human.destinations.len() implies destination_valid(
            #[trigger] m.human.destinations[i],
        ) by {}
        assert forall|i: int| 0 <= i < m.human.fields.len() implies field_valid(
            #[trigger] m.human.fields[i],
        ) by {}
        assert forall|i: int| 0 <= i < m.human.source_fields.len() implies source_field_valid(
            #[trigger] m.human.source_fields[i],
        ) by {}
    }
}

/// Files under other identifiers stay in their places and keep all else.
pub proof fn lemma_remapped(v: Seq<AttachmentModel>, ids: Seq<[u8; 16]>, i: int)
    requires
        0 <= i < v.len(),
    ensures
        remapped(v, ids).len() == v.len(),
        remapped(v, ids)[i].id == ids[i],
        remapped(v, ids)[i].name == v[i].name,
        remapped(v, ids)[i].mime == v[i].mime,
        remapped(v, ids)[i].size == v[i].size,
        remapped(v, ids)[i].sha256 == v[i].sha256,
        remapped(v, ids)[i].content == v[i].content,
{
}

/// The files of a record are complete where each has all its bytes and they are
/// the ones that were declared.
pub proof fn lemma_files_complete(v: Seq<AttachmentModel>, digests: Seq<[u8; 32]>)
    requires
        v.len() == digests.len(),
    ensures
        files_complete(v, digests) <==> forall|i: int|
            0 <= i < v.len() ==> (#[trigger] v[i]).content.len() == v[i].size && v[i].sha256@
                == digests[i]@,
{
}

/// What is written of a whole record gives back its parts, and each file's bytes
/// under that file's identifier, in their order.
pub proof fn lemma_whole_record(m: RecordModel, i: int)
    requires
        full_bytes(m).len() <= u64::MAX,
    ensures
        open_envelope(full_bytes(m)) is Some,
        ({
            let e = open_envelope(full_bytes(m))->0;
            &&& e.human == human_bytes(m)
            &&& e.auth == auth_bytes(m)
            &&& e.contents.len() == m.attachments.len()
            &&& 0 <= i < m.attachments.len() ==> e.contents[i].0 == m.attachments[i].id@
                && e.contents[i].1 == m.attachments[i].content
        }),
{
    lemma_open_envelope(m);
}

/// What is written of a record without its files' bytes gives back its parts.
pub proof fn lemma_descriptor(m: RecordModel)
    requires
        descriptor_bytes(m).len() <= u64::MAX,
    ensures
        ({
            let v = next_uint(next_key(take_map_of(descriptor_bytes(m), 3), "v"@));
            let human = next_bytes(next_key(after(v), "human"@));
            let auth = match next_key(after(human), "auth"@) {
                Some(b) => take_optional_bytes(b),
                None => None,
            };
            &&& v is Some && (v->0).0 == 1
            &&& human is Some && (human->0).0 == human_bytes(m)
            &&& auth is Some && (auth->0).0 == auth_bytes(m)
            &&& (auth->0).1.len() == 0
        }),
{
    let t5 = optional_bytes_item(auth_bytes(m)) + Seq::<u8>::empty();
    assert(t5 =~= optional_bytes_item(auth_bytes(m)));
    let t4 = text_item("auth"@) + t5;
    let t3 = bytes_item(human_bytes(m)) + t4;
    let t2 = text_item("human"@) + t3;
    let t1 = uint_item(1) + t2;
    let t0 = text_item("v"@) + t1;
    assert(descriptor_bytes(m) == map_head(3) + t0);
    lemma_map(3, t0);
    lemma_text_within("v"@, t1);
    lemma_uint(1, t2);
    lemma_text_within("human"@, t3);
    lemma_bytes_within(human_bytes(m), t4);
    lemma_text_within("auth"@, t5);
    lemma_optional_bytes(auth_bytes(m), Seq::empty());
}

/// What is found is the first file with the identifier.
proof fn lemma_found_file(v: Seq<AttachmentModel>, id: Seq<u8>, i: int, from: int)
    requires
        0 <= from <= i < v.len(),
        v[i].id@ == id,
        forall|j: int| 0 <= j < i ==> (#[trigger] v[j]).id@ != id,
    ensures
        find_attachment(v, id, from) == Some(i),
    decreases i - from,
{
    if from < i {
        assert(v[from].id@ != id);
        lemma_found_file(v, id, i, from + 1);
    }
}

/// No file has the identifier.
proof fn lemma_no_file(v: Seq<AttachmentModel>, id: Seq<u8>, from: int)
    requires
        0 <= from,
        forall|j: int| 0 <= j < v.len() ==> (#[trigger] v[j]).id@ != id,
    ensures
        find_attachment(v, id, from) is None,
    decreases v.len() - from,
{
    if from < v.len() {
        assert(v[from].id@ != id);
        lemma_no_file(v, id, from + 1);
    }
}

/// Bytes are given to the file with their identifier, and only where they are as
/// many as declared, under the digest that was declared, and it has none yet;
/// all else stays as it is.
pub proof fn lemma_bytes_given(
    m: RecordModel,
    id: Seq<u8>,
    content: Seq<u8>,
    digest: Seq<u8>,
    i: int,
)
    ensures
        (forall|j: int| 0 <= j < m.attachments.len() ==> (#[trigger] m.attachments[j]).id@ != id)
            ==> with_content(m, id, content, digest) is None,
        0 <= i < m.attachments.len() && m.attachments[i].id@ == id && (forall|j: int|
            0 <= j < i ==> (#[trigger] m.attachments[j]).id@ != id) ==> {
            let a = m.attachments[i];
            let r = with_content(m, id, content, digest);
            &&& r is Some <==> content.len() == a.size && a.sha256@ == digest && a.content.len()
                == 0
            &&& r matches Some(n) ==> {
                &&& n.kind == m.kind
                &&& n.human == m.human
                &&& n.auth == m.auth
                &&& n.attachments.len() == m.attachments.len()
                &&& n.attachments[i].content == content
                &&& n.attachments[i].id == a.id
                &&& n.attachments[i].name == a.name
                &&& n.attachments[i].mime == a.mime
                &&& n.attachments[i].size == a.size
                &&& n.attachments[i].sha256 == a.sha256
                &&& forall|j: int|
                    0 <= j < m.attachments.len() && j != i ==> #[trigger] n.attachments[j]
                        == m.attachments[j]
            }
        },
{
    if forall|j: int| 0 <= j < m.attachments.len() ==> (#[trigger] m.attachments[j]).id@ != id {
        lemma_no_file(m.attachments, id, 0);
    }
    if 0 <= i < m.attachments.len() && m.attachments[i].id@ == id && (forall|j: int|
        0 <= j < i ==> (#[trigger] m.attachments[j]).id@ != id) {
        lemma_found_file(m.attachments, id, i, 0);
    }
}

/// What is wiped of a way to authenticate is its secrets, each of them, and
/// nothing else of it.
pub proof fn lemma_wiped(a: AuthModel, b: AuthModel)
    requires
        auth_erased(a, b),
    ensures
        a is Password ==> b is Password && b->Password_password.len() == 0 && b->Password_username
            == a->Password_username && b->Password_destination_refs
            == a->Password_destination_refs,
        a is Totp ==> b is Totp && b->Totp_secret.len() == 0 && b->algorithm == a->algorithm
            && b->digits == a->digits && b->period == a->period && b->t0 == a->t0 && b->issuer
            == a->issuer && b->account == a->account && b->Totp_destination_refs
            == a->Totp_destination_refs,
        a is Passkey ==> b is Passkey && (forall|i: int|
            0 <= i < 32 ==> #[trigger] b->Passkey_private_key@[i] == 0) && b->rp_id == a->rp_id
            && b->user_handle == a->user_handle && b->credential_id == a->credential_id
            && b->cose_alg == a->cose_alg && b->Passkey_public_key == a->Passkey_public_key
            && b->user_name == a->user_name && b->display_name == a->display_name && b->sign_count
            == a->sign_count && b->backup_eligible == a->backup_eligible && b->backup_state
            == a->backup_state,
        a is Ssh ==> b is Ssh && b->Ssh_private_key.len() == 0 && (b->passphrase matches Some(p)
            ==> p.len() == 0) && (b->passphrase is Some <==> a->passphrase is Some)
            && b->private_format == a->private_format && b->Ssh_public_key == a->Ssh_public_key
            && b->Ssh_username == a->Ssh_username && b->Ssh_destination_refs
            == a->Ssh_destination_refs,
        a is Token ==> b is Token && b->Token_secret.len() == 0 && b->provider == a->provider
            && b->profile_id == a->profile_id && b->Token_destination_refs
            == a->Token_destination_refs && b->expires_at == a->expires_at,
{
    if a is Passkey {
        let key = b->Passkey_private_key;
        assert(key@ == Seq::new(32, |i: int| 0u8));
        assert forall|i: int| 0 <= i < 32 implies #[trigger] key@[i] == 0 by {
            assert(Seq::new(32, |i: int| 0u8)[i] == 0);
        }
    }
}

/// What is wiped of a field is its value; its label, its identifier and whether
/// it is concealed stay.
pub proof fn lemma_field_wiped(f: FieldModel)
    ensures
        erased_field(f).id == f.id,
        erased_field(f).label == f.label,
        erased_field(f).concealed == f.concealed,
        f.value is Text ==> erased_field(f).value is Text && (erased_field(f).value->Text_0).len()
            == 0,
        f.value is Bytes ==> erased_field(f).value is Bytes && (
        erased_field(f).value->Bytes_0).len() == 0,
{
}

} // verus!
