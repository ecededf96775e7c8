//! Delegated authority: agents, their credentials, and who may use them.
use crate::bytes::{byte_len, fixed16, fixed44, same, same_str};
use crate::cbor::{bytes_item, map_head, opt_text, optional_text_item, text_item, Reader, Writer};
use crate::command::{PreparedHumanCommand, PreparedModel};
use crate::content::{kind_name, RecordKind};
use crate::errors::AuthorizationError;
use crate::events::{AuthorityEventHeader, HeaderModel};
use crate::lists::{opt_string, string_slice, take_optional_text};
use crate::ordered::same_array;
use crate::wipe::wipe_bytes;
use vstd::prelude::*;
use vstd::slice::slice_to_vec;
use vstd::utf8::encode_utf8;

verus! {

/// Bytes of a transport key.
pub const RPK_BYTES: usize = 44;

/// Most bytes of a label.
pub const MAX_LABEL_BYTES: usize = 256;

/// Why authority was withdrawn.
#[derive(Clone, Copy, Debug, PartialEq, Eq, Structural)]
pub enum AuthorizationReason {
    OwnerRequest,
    Replacement,
    SuspectedCompromise,
}

/// The name of a reason.
pub open spec fn reason_name(reason: AuthorizationReason) -> Seq<char> {
    match reason {
        AuthorizationReason::OwnerRequest => "owner_request"@,
        AuthorizationReason::Replacement => "replacement"@,
        AuthorizationReason::SuspectedCompromise => "suspected_compromise"@,
    }
}

/// Different reasons have different names.
pub proof fn lemma_reason_names_differ(a: AuthorizationReason, b: AuthorizationReason)
    requires
        reason_name(a) == reason_name(b),
    ensures
        a == b,
{
    reveal_strlit("owner_request");
    reveal_strlit("replacement");
    reveal_strlit("suspected_compromise");
    assert("owner_request"@.len() == 13);
    assert("replacement"@.len() == 11);
    assert("suspected_compromise"@.len() == 20);
}

impl AuthorizationReason {
    /// The name of the reason.
    pub fn name(self) -> (r: &'static str)
        ensures
            r@ == reason_name(self),
    {
        match self {
            AuthorizationReason::OwnerRequest => "owner_request",
            AuthorizationReason::Replacement => "replacement",
            AuthorizationReason::SuspectedCompromise => "suspected_compromise",
        }
    }

    /// The reason of that name.
    pub fn parse(name: &str) -> (r: Option<AuthorizationReason>)
        ensures
            forall|x: AuthorizationReason| #[trigger] reason_name(x) == name@ ==> r == Some(x),
            r is Some ==> reason_name(r->0) == name@,
    {
        let r = if same_str(name, "owner_request") {
            Some(AuthorizationReason::OwnerRequest)
        } else if same_str(name, "replacement") {
            Some(AuthorizationReason::Replacement)
        } else if same_str(name, "suspected_compromise") {
            Some(AuthorizationReason::SuspectedCompromise)
        } else {
            None
        };
        proof {
            assert forall|x: AuthorizationReason| #[trigger] reason_name(x) == name@ implies r
                == Some(x) by {
                if r is Some {
                    lemma_reason_names_differ(x, r->0);
                }
            }
        }
        r
    }
}

/// Identity material of one stable agent subject, as a human reviewed it.
pub struct AgentEnrollment {
    subject_id: [u8; 16],
    request_id: [u8; 16],
    transport_rpk: [u8; 44],
    label: String,
    environment_binding: String,
}

/// The contents of an [`AgentEnrollment`].
pub struct EnrollmentModel {
    pub subject_id: [u8; 16],
    pub request_id: [u8; 16],
    pub transport_rpk: [u8; 44],
    pub label: Seq<char>,
    pub environment_binding: Seq<char>,
}

impl View for AgentEnrollment {
    type V = EnrollmentModel;

    closed spec fn view(&self) -> EnrollmentModel {
        EnrollmentModel {
            subject_id: self.subject_id,
            request_id: self.request_id,
            transport_rpk: self.transport_rpk,
            label: self.label@,
            environment_binding: self.environment_binding@,
        }
    }
}

/// Whether an identifier is all zeros.
pub open spec fn is_zero(id: [u8; 16]) -> bool {
    id@ == Seq::new(16, |i: int| 0u8)
}

/// Whether an identifier is all zeros.
pub fn zero_id(id: &[u8; 16]) -> (r: bool)
    ensures
        r == is_zero(*id),
{
    let zeros: [u8; 16] = [0u8;16];
    assert(zeros@ =~= Seq::new(16, |i: int| 0u8));
    let r = same_array(id, &zeros);
    proof {
        if id@ == zeros@ {
            crate::ordered::lemma_same_array(*id, zeros);
        }
    }
    r
}

/// Whether identity material may be enrolled.
pub open spec fn enrollable(
    subject_id: [u8; 16],
    request_id: [u8; 16],
    transport_rpk: Seq<u8>,
    label: Seq<char>,
    environment_binding: Seq<char>,
) -> bool {
    &&& !is_zero(subject_id)
    &&& !is_zero(request_id)
    &&& transport_rpk.len() == RPK_BYTES
    &&& encode_utf8(label).len() <= MAX_LABEL_BYTES
    &&& encode_utf8(environment_binding).len() <= MAX_LABEL_BYTES
}

impl AgentEnrollment {
    /// Creates the identity material of one stable agent subject.
    pub fn new(
        subject_id: [u8; 16],
        request_id: [u8; 16],
        transport_rpk: &[u8],
        label: &str,
        environment_binding: &str,
    ) -> (r: Result<AgentEnrollment, AuthorizationError>)
        ensures
            r is Ok <==> enrollable(
                subject_id,
                request_id,
                transport_rpk@,
                label@,
                environment_binding@,
            ),
            r is Ok ==> {
                &&& (r->Ok_0)@.subject_id == subject_id
                &&& (r->Ok_0)@.request_id == request_id
                &&& (r->Ok_0)@.transport_rpk@ == transport_rpk@
                &&& (r->Ok_0)@.label == label@
                &&& (r->Ok_0)@.environment_binding == environment_binding@
            },
            r is Err ==> r->Err_0 is InvalidInput,
    {
        if zero_id(&subject_id) || zero_id(&request_id) || byte_len(label) > MAX_LABEL_BYTES
            || byte_len(environment_binding) > MAX_LABEL_BYTES {
            return Err(AuthorizationError::InvalidInput);
        }
        match fixed44(transport_rpk) {
            Some(key) => Ok(
                AgentEnrollment {
                    subject_id,
                    request_id,
                    transport_rpk: key,
                    label: label.to_owned(),
                    environment_binding: environment_binding.to_owned(),
                },
            ),
            None => Err(AuthorizationError::InvalidInput),
        }
    }

    pub fn subject_id(&self) -> (r: &[u8; 16])
        ensures
            *r == self@.subject_id,
    {
        &self.subject_id
    }

    pub fn request_id(&self) -> (r: &[u8; 16])
        ensures
            *r == self@.request_id,
    {
        &self.request_id
    }

    pub fn transport_rpk(&self) -> (r: &[u8; 44])
        ensures
            *r == self@.transport_rpk,
    {
        &self.transport_rpk
    }

    pub fn label(&self) -> (r: &str)
        ensures
            r@ == self@.label,
    {
        self.label.as_str()
    }

    pub fn environment_binding(&self) -> (r: &str)
        ensures
            r@ == self@.environment_binding,
    {
        self.environment_binding.as_str()
    }
}

/// A peer as its mutually authenticated connection shows it.
#[derive(Clone, Debug, PartialEq, Eq)]
pub struct AgentPeer {
    transport_rpk: [u8; 44],
}

impl View for AgentPeer {
    type V = [u8; 44];

    closed spec fn view(&self) -> [u8; 44] {
        self.transport_rpk
    }
}

impl AgentPeer {
    /// Captures the key observed from the connection.
    pub fn from_transport_rpk(value: &[u8]) -> (r: Result<AgentPeer, AuthorizationError>)
        ensures
            r is Ok <==> value@.len() == RPK_BYTES,
            r is Ok ==> (r->Ok_0)@@ == value@,
            r is Err ==> r->Err_0 is InvalidInput,
    {
        match fixed44(value) {
            Some(transport_rpk) => Ok(AgentPeer { transport_rpk }),
            None => Err(AuthorizationError::InvalidInput),
        }
    }

    /// The observed key.
    pub fn transport_rpk(&self) -> (r: &[u8; 44])
        ensures
            *r == self@,
    {
        &self.transport_rpk
    }
}

/// A prepared enrollment and the generation it will have.
pub struct PreparedAgentEnrollment {
    prepared: PreparedHumanCommand,
    generation: u64,
}

/// The contents of a [`PreparedAgentEnrollment`].
pub struct PreparedEnrollmentModel {
    pub prepared: PreparedModel,
    pub generation: u64,
}

impl View for PreparedAgentEnrollment {
    type V = PreparedEnrollmentModel;

    closed spec fn view(&self) -> PreparedEnrollmentModel {
        PreparedEnrollmentModel {
            prepared: self.prepared@,
            generation: self.generation,
        }
    }
}

impl PreparedAgentEnrollment {
    /// A prepared enrollment.
    pub fn new(prepared: PreparedHumanCommand, generation: u64) -> (r: PreparedAgentEnrollment)
        ensures
            r@ == (PreparedEnrollmentModel { prepared: prepared@, generation }),
    {
        PreparedAgentEnrollment { prepared, generation }
    }

    pub fn prepared(&self) -> (r: &PreparedHumanCommand)
        ensures
            r@ == self@.prepared,
    {
        &self.prepared
    }

    pub fn generation(&self) -> (r: u64)
        ensures
            r == self@.generation,
    {
        self.generation
    }

    pub fn into_prepared(self) -> (r: PreparedHumanCommand)
        ensures
            r@ == self@.prepared,
    {
        self.prepared
    }
}

/// An agent subject and its generation.
#[derive(Clone, Copy, Debug, PartialEq, Eq)]
pub struct AgentIdentity {
    subject: [u8; 16],
    generation: u64,
}

/// The contents of an [`AgentIdentity`].
pub struct IdentityModel {
    pub subject: [u8; 16],
    pub generation: u64,
}

impl View for AgentIdentity {
    type V = IdentityModel;

    closed spec fn view(&self) -> IdentityModel {
        IdentityModel { subject: self.subject, generation: self.generation }
    }
}

impl AgentIdentity {
    /// An agent generation.
    pub fn new(subject: [u8; 16], generation: u64) -> (r: AgentIdentity)
        ensures
            r@ == (IdentityModel { subject, generation }),
    {
        AgentIdentity { subject, generation }
    }

    pub fn subject(&self) -> (r: &[u8; 16])
        ensures
            *r == self@.subject,
    {
        &self.subject
    }

    pub fn generation(&self) -> (r: u64)
        ensures
            r == self@.generation,
    {
        self.generation
    }
}

/// What an agent may know of a credential.
#[derive(Clone, Debug, PartialEq, Eq)]
pub struct DelegatedCredential {
    item_id: [u8; 16],
    revision_id: [u8; 16],
    kind: RecordKind,
    title: String,
    destination: Option<String>,
    account: Option<String>,
}

/// The contents of a [`DelegatedCredential`].
pub struct CredentialModel {
    pub item_id: [u8; 16],
    pub revision_id: [u8; 16],
    pub kind: RecordKind,
    pub title: Seq<char>,
    pub destination: Option<Seq<char>>,
    pub account: Option<Seq<char>>,
}

impl View for DelegatedCredential {
    type V = CredentialModel;

    closed spec fn view(&self) -> CredentialModel {
        CredentialModel {
            item_id: self.item_id,
            revision_id: self.revision_id,
            kind: self.kind,
            title: self.title@,
            destination: opt_string(self.destination),
            account: opt_string(self.account),
        }
    }
}

/// Describes a credential.
pub fn new_credential(
    item_id: [u8; 16],
    revision_id: [u8; 16],
    kind: RecordKind,
    title: String,
    destination: Option<String>,
    account: Option<String>,
) -> (r: DelegatedCredential)
    ensures
        r@ == (CredentialModel {
            item_id,
            revision_id,
            kind,
            title: title@,
            destination: opt_string(destination),
            account: opt_string(account),
        }),
{
    DelegatedCredential { item_id, revision_id, kind, title, destination, account }
}

impl DelegatedCredential {
    pub fn item_id(&self) -> (r: &[u8; 16])
        ensures
            *r == self@.item_id,
    {
        &self.item_id
    }

    pub fn revision_id(&self) -> (r: &[u8; 16])
        ensures
            *r == self@.revision_id,
    {
        &self.revision_id
    }

    pub fn kind(&self) -> (r: RecordKind)
        ensures
            r == self@.kind,
    {
        self.kind
    }

    pub fn title(&self) -> (r: &str)
        ensures
            r@ == self@.title,
    {
        self.title.as_str()
    }

    pub fn destination(&self) -> (r: Option<&str>)
        ensures
            opt_text(r) == self@.destination,
    {
        string_slice(&self.destination)
    }

    pub fn account(&self) -> (r: Option<&str>)
        ensures
            opt_text(r) == self@.account,
    {
        string_slice(&self.account)
    }
}

/// A credential with the material to use it.
pub struct OperationalCredential {
    pub descriptor: DelegatedCredential,
    pub auth: Vec<u8>,
}

/// The contents of an [`OperationalCredential`].
pub struct OperationalModel {
    pub descriptor: CredentialModel,
    pub auth: Seq<u8>,
}

impl View for OperationalCredential {
    type V = OperationalModel;

    open spec fn view(&self) -> OperationalModel {
        OperationalModel { descriptor: self.descriptor@, auth: self.auth@ }
    }
}

/// A delegated credential, followed by `t`.
pub open spec fn credential_then(m: OperationalModel, t: Seq<u8>) -> Seq<u8> {
    map_head(7) + (text_item("item_id"@) + (bytes_item(m.descriptor.item_id@)
        + (text_item("revision_id"@) + (bytes_item(m.descriptor.revision_id@) + (text_item("kind"@)
        + (text_item(kind_name(m.descriptor.kind)) + (text_item("title"@)
        + (text_item(m.descriptor.title) + (text_item("destination"@)
        + (optional_text_item(m.descriptor.destination) + (text_item("account"@)
        + (optional_text_item(m.descriptor.account) + (text_item("auth"@)
        + (bytes_item(m.auth) + t))))))))))))))
}

/// Appends a delegated credential.
fn put_credential(w: &mut Writer, x: &OperationalCredential)
    ensures
        forall|t: Seq<u8>|
            #![trigger old(w)@ + credential_then(x@, t)]
            final(w)@ + t == old(w)@ + credential_then(x@, t),
{
    w.map(7);
    w.str("item_id");
    w.bytes(&x.descriptor.item_id);
    w.str("revision_id");
    w.bytes(&x.descriptor.revision_id);
    w.str("kind");
    w.str(x.descriptor.kind.name());
    w.str("title");
    w.str(x.descriptor.title.as_str());
    w.str("destination");
    w.optional_str(string_slice(&x.descriptor.destination));
    w.str("account");
    w.optional_str(string_slice(&x.descriptor.account));
    w.str("auth");
    w.bytes(x.auth.as_slice());
}

/// Reads a delegated credential.
fn take_credential(d: &mut Reader) -> (r: Option<OperationalCredential>)
    ensures
        forall|m: OperationalModel, t: Seq<u8>|
            #![trigger credential_then(m, t)]
            old(d).rest() == credential_then(m, t) ==> r is Some && (r->0)@ == m
                && final(d).rest() == t,
{
    d.map_of(7)?;
    d.key("item_id")?;
    let item_id = d.fixed16()?;
    d.key("revision_id")?;
    let revision_id = d.fixed16()?;
    d.key("kind")?;
    let kind = RecordKind::from_name(d.str()?)?;
    d.key("title")?;
    let title = d.str()?.to_owned();
    d.key("destination")?;
    let destination = take_optional_text(d)?;
    d.key("account")?;
    let account = take_optional_text(d)?;
    d.key("auth")?;
    let auth = slice_to_vec(d.bytes()?);
    Some(OperationalCredential {
            descriptor: DelegatedCredential {
                item_id,
                revision_id,
                kind,
                title,
                destination,
                account,
            },
            auth,
        })
}

/// A delegated credential.
pub open spec fn credential_bytes(m: OperationalModel) -> Seq<u8> {
    credential_then(m, Seq::empty())
}

/// Encodes a delegated credential.
pub fn encode_credential(x: &OperationalCredential) -> (r: Vec<u8>)
    ensures
        r@ == credential_bytes(x@),
{
    let mut w = Writer::new();
    let ghost none = Seq::<u8>::empty();
    assert(none + credential_then(x@, none) =~= credential_bytes(x@));
    put_credential(&mut w, x);
    assert(w@ + none =~= w@);
    w.finish()
}

/// What bytes decode to: the only delegated credential whose canonical encoding they are.
pub open spec fn credential_of(b: Seq<u8>) -> Option<OperationalModel> {
    if exists|m: OperationalModel| #[trigger] credential_bytes(m) == b {
        Some(choose|m: OperationalModel| #[trigger] credential_bytes(m) == b)
    } else {
        None
    }
}

/// Decodes a delegated credential; only the canonical encoding is accepted.
pub fn decode_credential(input: &[u8]) -> (r: Result<OperationalCredential, AuthorizationError>)
    ensures
        forall|m: OperationalModel|
            input@ == #[trigger] credential_bytes(m) ==> r is Ok && (r->Ok_0)@ == m,
        r is Ok ==> credential_bytes((r->Ok_0)@) == input@,
        match credential_of(input@) {
            Some(m) => r is Ok && (r->Ok_0)@ == m,
            None => r is Err && r->Err_0 is Integrity,
        },
{
    let mut d = Reader::new(input);
    let r = match take_credential(&mut d) {
        Some(x) => if d.at_end() && same(encode_credential(&x).as_slice(), input) {
            Ok(x)
        } else {
            Err(AuthorizationError::Integrity)
        },
        None => Err(AuthorizationError::Integrity),
    };
    proof {
        if r is Ok {
            assert(credential_bytes((r->Ok_0)@) == input@);
        }
    }
    r
}

impl OperationalCredential {
    /// Overwrites the secret.
    pub fn wipe(&mut self)
        ensures
            final(self)@ == (OperationalModel { auth: Seq::empty(), ..old(self)@ }),
        opens_invariants none
        no_unwind
    {
        wipe_bytes(&mut self.auth);
    }
}

impl Drop for OperationalCredential {
    /// Erases the secret when the credential is released.
    fn drop(&mut self)
        ensures
            final(self)@ == (OperationalModel { auth: Seq::empty(), ..old(self)@ }),
        opens_invariants none
        no_unwind
    {
        self.wipe();
    }
}

/// A stored agent generation.
pub struct AgentRow {
    pub subject: Vec<u8>,
    pub generation: i64,
    pub status: String,
    /// Whether a revocation is stored.
    pub revoked: bool,
}

/// Whether an event is of that kind on that subject and generation.
pub open spec fn concerns(
    header: HeaderModel,
    kind: Seq<char>,
    subject: Seq<u8>,
    generation: int,
) -> bool {
    &&& header.kind == kind
    &&& header.subject@ == subject
    &&& header.subject_generation == generation
}

/// What the authority says of a peer: `grant` and `revocation` are the verified
/// events that its row refers to.
pub open spec fn agent_verdict(
    row: Option<AgentRow>,
    grant: HeaderModel,
    revocation: Option<HeaderModel>,
) -> Result<IdentityModel, AuthorizationError> {
    match row {
        None => Err(AuthorizationError::Unauthorized),
        Some(row) => {
            let subject = row.subject@;
            let generation = row.generation as int;
            if subject.len() != 16 || generation < 0 || !concerns(
                grant,
                "agent-grant"@,
                subject,
                generation,
            ) {
                Err(AuthorizationError::Integrity)
            } else if row.status@ == "active"@ && !row.revoked {
                Ok(IdentityModel { subject: grant.subject, generation: generation as u64 })
            } else if row.status@ == "revoked"@ {
                if row.revoked && revocation is Some && concerns(
                    revocation->0,
                    "agent-revoke"@,
                    subject,
                    generation,
                ) {
                    Err(AuthorizationError::AgentRevoked)
                } else {
                    Err(AuthorizationError::Integrity)
                }
            } else if row.status@ == "superseded"@ {
                Err(AuthorizationError::AgentRevoked)
            } else {
                Err(AuthorizationError::Integrity)
            }
        },
    }
}

/// Whether an event is of that kind on that subject and generation.
fn is_about(
    header: &AuthorityEventHeader,
    kind: &str,
    subject: &[u8; 16],
    generation: i64,
) -> (r: bool)
    ensures
        r == concerns(header@, kind@, subject@, generation as int),
{
    proof {
        if header@.subject@ == subject@ {
            crate::ordered::lemma_same_array(header@.subject, *subject);
        }
    }
    same_str(header.kind(), kind) && same_array(header.subject(), subject) && generation >= 0
        && header.subject_generation() == generation as u64
}

/// The contents of an optional header.
pub open spec fn opt_header(header: Option<AuthorityEventHeader>) -> Option<HeaderModel> {
    match header {
        Some(h) => Some(h@),
        None => None,
    }
}

/// Resolves a peer to an agent generation, or denies it.
pub fn verify_agent(
    row: &Option<AgentRow>,
    grant: &AuthorityEventHeader,
    revocation: &Option<AuthorityEventHeader>,
) -> (r: Result<AgentIdentity, AuthorizationError>)
    ensures
        match agent_verdict(*row, grant@, opt_header(*revocation)) {
            Ok(m) => r is Ok && (r->Ok_0)@ == m,
            Err(e) => r is Err && r->Err_0 == e,
        },
{
    let row = match row {
        Some(row) => row,
        None => {
            return Err(AuthorizationError::Unauthorized);
        },
    };
    let subject = match fixed16(row.subject.as_slice()) {
        Some(subject) => subject,
        None => {
            return Err(AuthorizationError::Integrity);
        },
    };
    if row.generation < 0 || !is_about(grant, "agent-grant", &subject, row.generation) {
        return Err(AuthorizationError::Integrity);
    }
    let status = row.status.as_str();
    if same_str(status, "active") && !row.revoked {
        return Ok(
            AgentIdentity { subject: *grant.subject(), generation: row.generation as u64 },
        );
    }
    if same_str(status, "revoked") {
        let proven = match revocation {
            Some(event) => is_about(event, "agent-revoke", &subject, row.generation),
            None => false,
        };
        return if row.revoked && proven {
            Err(AuthorizationError::AgentRevoked)
        } else {
            Err(AuthorizationError::Integrity)
        };
    }
    if same_str(status, "superseded") {
        Err(AuthorizationError::AgentRevoked)
    } else {
        Err(AuthorizationError::Integrity)
    }
}

/// A peer is let in only where its grant stands and nothing revoked it.
pub proof fn lemma_only_active_agents(
    row: Option<AgentRow>,
    grant: HeaderModel,
    revocation: Option<HeaderModel>,
)
    requires
        agent_verdict(row, grant, revocation) is Ok,
    ensures
        row is Some,
        row->0.status@ == "active"@,
        !row->0.revoked,
        grant.kind == "agent-grant"@,
        grant.subject@ == row->0.subject@,
        agent_verdict(row, grant, revocation)->Ok_0.subject == grant.subject,
{
}

/// What the global switch says: delegated access is denied unless a verified
/// resumption of this vault is the latest word.
pub open spec fn global_verdict(
    status: Option<Seq<char>>,
    event: HeaderModel,
    vault: [u8; 16],
) -> Result<(), AuthorizationError> {
    match status {
        None => Err(AuthorizationError::AccessSuspended),
        Some(status) => if event.kind != (if status == "resumed"@ {
            "resume"@
        } else {
            "suspend"@
        }) || event.subject != vault {
            Err(AuthorizationError::Integrity)
        } else if status != "resumed"@ {
            Err(AuthorizationError::AccessSuspended)
        } else {
            Ok(())
        },
    }
}

/// Checks the global switch; `event` is the verified event that it refers to.
pub fn verify_global(status: Option<&str>, event: &AuthorityEventHeader, vault: &[u8; 16]) -> (r:
    Result<(), AuthorizationError>)
    ensures
        r == global_verdict(opt_text(status), event@, *vault),
{
    let status = match status {
        Some(status) => status,
        None => {
            return Err(AuthorizationError::AccessSuspended);
        },
    };
    let resumed = same_str(status, "resumed");
    let expected = if resumed {
        "resume"
    } else {
        "suspend"
    };
    if !same_str(event.kind(), expected) || !same_array(event.subject(), vault) {
        return Err(AuthorizationError::Integrity);
    }
    if resumed {
        Ok(())
    } else {
        Err(AuthorizationError::AccessSuspended)
    }
}

/// Whether an opened credential is the one that its enabling event, its grant
/// and its row say.
pub open spec fn credential_consistent(
    enable: HeaderModel,
    item: [u8; 16],
    revision: [u8; 16],
    granted_payload: [u8; 32],
    package_digest: [u8; 32],
    m: OperationalModel,
) -> bool {
    &&& enable.kind == "enable"@
    &&& enable.subject == item
    &&& granted_payload == package_digest
    &&& m.descriptor.item_id == item
    &&& m.descriptor.revision_id == revision
}

/// Decodes an opened credential and holds it against its enabling event, its
/// grant and its row.
pub fn open_operational_credential(
    enable: &AuthorityEventHeader,
    item: &[u8; 16],
    revision: &[u8; 16],
    granted_payload: &[u8; 32],
    package_digest: &[u8; 32],
    plaintext: &[u8],
) -> (r: Result<OperationalCredential, AuthorizationError>)
    ensures
        match credential_of(plaintext@) {
            Some(m) => if credential_consistent(
                enable@,
                *item,
                *revision,
                *granted_payload,
                *package_digest,
                m,
            ) {
                r is Ok && (r->Ok_0)@ == m
            } else {
                r is Err && r->Err_0 is Integrity
            },
            None => r is Err && r->Err_0 is Integrity,
        },
{
    match decode_credential(plaintext) {
        Ok(credential) => if same_str(enable.kind(), "enable") && same_array(
            enable.subject(),
            item,
        ) && same_array(granted_payload, package_digest) && same_array(
            credential.descriptor.item_id(),
            item,
        ) && same_array(credential.descriptor.revision_id(), revision) {
            Ok(credential)
        } else {
            Err(AuthorizationError::Integrity)
        },
        Err(_) => Err(AuthorizationError::Integrity),
    }
}

/// Whether an event must carry the owner's signature: all but those that a
/// device issues alone, which must not.
pub fn signature_rule(kind: &str, signed: bool) -> (r: Result<bool, AuthorizationError>)
    ensures
        ({
            let device_only = kind@ == "join"@ || kind@ == "checkpoint-cache"@;
            &&& device_only == signed ==> r is Err && r->Err_0 is Integrity
            &&& device_only != signed ==> r == Ok::<bool, AuthorizationError>(signed)
        }),
{
    let device_only = same_str(kind, "join") || same_str(kind, "checkpoint-cache");
    if device_only == signed {
        Err(AuthorizationError::Integrity)
    } else {
        Ok(signed)
    }
}

/// The names of the reasons.
pub proof fn lemma_reason_names(reason: AuthorizationReason)
    ensures
        reason is OwnerRequest ==> reason_name(reason) == "owner_request"@,
        reason is Replacement ==> reason_name(reason) == "replacement"@,
        reason is SuspectedCompromise ==> reason_name(reason) == "suspected_compromise"@,
{
}

/// An agent can be enrolled with identifiers that are not all zero, a transport
/// key of 44 bytes, and texts of at most 256 bytes.
pub proof fn lemma_enrollable(
    subject_id: [u8; 16],
    request_id: [u8; 16],
    transport_rpk: Seq<u8>,
    label: Seq<char>,
    environment_binding: Seq<char>,
)
    ensures
        enrollable(subject_id, request_id, transport_rpk, label, environment_binding) <==> {
            &&& exists|i: int| 0 <= i < 16 && #[trigger] subject_id@[i] != 0
            &&& exists|i: int| 0 <= i < 16 && #[trigger] request_id@[i] != 0
            &&& transport_rpk.len() == 44
            &&& encode_utf8(label).len() <= 256
            &&& encode_utf8(environment_binding).len() <= 256
        },
{
    lemma_is_zero(subject_id);
    lemma_is_zero(request_id);
}

/// An identifier is zero where each of its bytes is.
proof fn lemma_is_zero(id: [u8; 16])
    ensures
        !is_zero(id) <==> exists|i: int| 0 <= i < 16 && #[trigger] id@[i] != 0,
{
    let zero = Seq::new(16, |i: int| 0u8);
    if forall|i: int| 0 <= i < 16 ==> #[trigger] id@[i] == 0 {
        assert(id@ =~= zero);
    }
    if id@ == zero {
        assert forall|i: int| 0 <= i < 16 implies #[trigger] id@[i] == 0 by {
            assert(zero[i] == 0);
        }
    }
}

/// The statuses are told apart.
proof fn lemma_agent_statuses()
    ensures
        "active"@ != "revoked"@,
        "active"@ != "superseded"@,
        "revoked"@ != "superseded"@,
        "resume"@ != "suspend"@,
{
    reveal_strlit("active");
    reveal_strlit("revoked");
    reveal_strlit("superseded");
    reveal_strlit("resume");
    reveal_strlit("suspend");
    assert("active"@.len() == 6);
    assert("revoked"@.len() == 7);
    assert("superseded"@.len() == 10);
    assert("resume"@.len() == 6);
    assert("suspend"@.len() == 7);
}

/// What becomes of an agent's request, by its row: an active one that no
/// revocation is stored for is admitted under its own subject and generation; a
/// revoked one is turned away where the revocation is of that subject and
/// generation, and a superseded one in any case. A row that its grant does not
/// bear out is never believed, and an agent without a row is unknown.
pub proof fn lemma_agent_admitted(
    row: AgentRow,
    grant: HeaderModel,
    revocation: Option<HeaderModel>,
)
    ensures
        agent_verdict(None, grant, revocation) == Err::<IdentityModel, _>(
            AuthorizationError::Unauthorized,
        ),
        ({
            let granted = row.subject@.len() == 16 && row.generation >= 0 && grant.kind
                == "agent-grant"@ && grant.subject@ == row.subject@ && grant.subject_generation
                == row.generation;
            let r = agent_verdict(Some(row), grant, revocation);
            &&& !granted ==> r == Err::<IdentityModel, _>(AuthorizationError::Integrity)
            &&& granted && row.status@ == "active"@ && !row.revoked ==> r is Ok && (
            r->Ok_0).subject@ == row.subject@ && (r->Ok_0).generation == row.generation
            &&& granted && row.status@ == "active"@ && row.revoked ==> r == Err::<
                IdentityModel,
                _,
            >(AuthorizationError::Integrity)
            &&& granted && row.status@ == "revoked"@ && row.revoked && revocation is Some && (
            revocation->0).kind == "agent-revoke"@ && (revocation->0).subject@ == row.subject@ && (
            revocation->0).subject_generation == row.generation ==> r == Err::<IdentityModel, _>(
                AuthorizationError::AgentRevoked,
            )
            &&& granted && row.status@ == "revoked"@ && !(row.revoked && revocation is Some && (
            revocation->0).kind == "agent-revoke"@ && (revocation->0).subject@ == row.subject@ && (
            revocation->0).subject_generation == row.generation) ==> r == Err::<IdentityModel, _>(
                AuthorizationError::Integrity,
            )
            &&& granted && row.status@ == "superseded"@ ==> r == Err::<IdentityModel, _>(
                AuthorizationError::AgentRevoked,
            )
            &&& granted && row.status@ != "active"@ && row.status@ != "revoked"@ && row.status@
                != "superseded"@ ==> r == Err::<IdentityModel, _>(AuthorizationError::Integrity)
        }),
{
    lemma_agent_statuses();
}

/// Access is open only where it was resumed, by an event that resumed this
/// vault; where nothing is recorded, or it was suspended by an event of this
/// vault, it is suspended; and where the event is another, nothing is believed.
pub proof fn lemma_access(status: Seq<char>, event: HeaderModel, vault: [u8; 16])
    ensures
        global_verdict(None, event, vault) == Err::<(), _>(AuthorizationError::AccessSuspended),
        status == "resumed"@ && event.kind == "resume"@ && event.subject == vault
            ==> global_verdict(Some(status), event, vault) is Ok,
        status != "resumed"@ && event.kind == "suspend"@ && event.subject == vault
            ==> global_verdict(Some(status), event, vault) == Err::<(), _>(
            AuthorizationError::AccessSuspended,
        ),
        event.subject != vault || (status == "resumed"@ && event.kind != "resume"@) || (status
            != "resumed"@ && event.kind != "suspend"@) ==> global_verdict(
            Some(status),
            event,
            vault,
        ) == Err::<(), _>(AuthorizationError::Integrity),
{
}

/// A delegated credential is opened only by the event that enabled its item,
/// with the payload that was granted, and only where it is of that item and
/// revision.
pub proof fn lemma_credential_opened(
    enable: HeaderModel,
    item: [u8; 16],
    revision: [u8; 16],
    granted_payload: [u8; 32],
    package_digest: [u8; 32],
    m: OperationalModel,
)
    ensures
        credential_consistent(enable, item, revision, granted_payload, package_digest, m) <==> {
            &&& enable.kind == "enable"@
            &&& enable.subject == item
            &&& item == m.descriptor.item_id
            &&& revision == m.descriptor.revision_id
            &&& package_digest == granted_payload
        },
{
}

} // verus!
