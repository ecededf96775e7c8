//! The material that a provider is given: passwords, one-time-password seeds
//! and exchangeable tokens.
use crate::attempts::{Execution, AttemptSnapshot};
use crate::authorization::{AgentIdentity, IdentityModel};
use crate::bytes::same_str;
use crate::cbor::{
    array_head, bool_item, bytes_item, int_item, items_after, lemma_array, lemma_bytes_within,
    lemma_head_len, lemma_int, lemma_items, lemma_map, lemma_null, lemma_text_within, lemma_uint,
    map_head, null_item, opt_view, optional_bytes_item, passed, take_array, take_array_of,
    take_bytes, take_int, take_map, take_map_of, take_null, take_text, take_uint, take_uint_to,
    text_item, uint_item, Reader,
};
use crate::content::{
    lemma_totp_algorithm_names_differ, opt_vec, private_key_format_name, totp_algorithm_name,
    AuthModel, TotpAlgorithm,
};
use crate::errors::AttemptError;
use crate::lists::{after, next_bytes, next_key, next_text, opt_string, vec_slice};
use crate::record_codec::{
    auth_then, auths_tail, auths_then, optional_int_item, refs_tail, refs_then,
};
use crate::wipe::wipe_bytes;
use vstd::prelude::*;
use vstd::slice::slice_to_vec;

verus! {

/// The seed of a one-time password.
pub struct TotpLease {
    secret: Vec<u8>,
    algorithm: TotpAlgorithm,
    digits: u8,
    period: u16,
    t0: u64,
}

/// The contents of a [`TotpLease`].
pub struct TotpLeaseModel {
    pub secret: Seq<u8>,
    pub algorithm: TotpAlgorithm,
    pub digits: u8,
    pub period: u16,
    pub t0: u64,
}

impl View for TotpLease {
    type V = TotpLeaseModel;

    closed spec fn view(&self) -> TotpLeaseModel {
        TotpLeaseModel {
            secret: self.secret@,
            algorithm: self.algorithm,
            digits: self.digits,
            period: self.period,
            t0: self.t0,
        }
    }
}

impl TotpLease {
    pub fn secret(&self) -> (r: &[u8])
        ensures
            r@ == self@.secret,
    {
        self.secret.as_slice()
    }

    pub fn algorithm(&self) -> (r: TotpAlgorithm)
        ensures
            r == self@.algorithm,
    {
        self.algorithm
    }

    pub fn digits(&self) -> (r: u8)
        ensures
            r == self@.digits,
    {
        self.digits
    }

    pub fn period(&self) -> (r: u16)
        ensures
            r == self@.period,
    {
        self.period
    }

    pub fn t0(&self) -> (r: u64)
        ensures
            r == self@.t0,
    {
        self.t0
    }

    /// Erases the seed.
    pub fn wipe(&mut self)
        ensures
            final(self)@ == (TotpLeaseModel { secret: Seq::empty(), ..old(self)@ }),
        opens_invariants none
        no_unwind
    {
        wipe_bytes(&mut self.secret);
    }
}

impl Drop for TotpLease {
    /// Erases the seed when the lease is released.
    fn drop(&mut self)
        ensures
            final(self)@ == (TotpLeaseModel { secret: Seq::empty(), ..old(self)@ }),
        opens_invariants none
        no_unwind
    {
        self.wipe();
    }
}

/// The contents of an optional [`TotpLease`].
pub open spec fn totp_view(t: Option<TotpLease>) -> Option<TotpLeaseModel> {
    match t {
        Some(t) => Some(t@),
        None => None,
    }
}

/// What a provider is given of a credential.
pub struct CredentialMaterial {
    pub username: String,
    pub password: Vec<u8>,
    pub subject_token: Option<Vec<u8>>,
    pub totp: Option<TotpLease>,
}

/// The contents of a [`CredentialMaterial`].
pub struct MaterialModel {
    pub username: Seq<char>,
    pub password: Seq<u8>,
    pub subject_token: Option<Seq<u8>>,
    pub totp: Option<TotpLeaseModel>,
}

impl View for CredentialMaterial {
    type V = MaterialModel;

    open spec fn view(&self) -> MaterialModel {
        MaterialModel {
            username: self.username@,
            password: self.password@,
            subject_token: opt_vec(self.subject_token),
            totp: totp_view(self.totp),
        }
    }
}

impl Drop for CredentialMaterial {
    /// Erases password and token when the material is released; the lease of a
    /// one-time password erases its own seed.
    fn drop(&mut self)
        ensures
            final(self)@ == (MaterialModel {
                password: Seq::empty(),
                subject_token: match old(self)@.subject_token {
                    Some(_) => Some(Seq::empty()),
                    None => None,
                },
                ..old(self)@
            }),
        opens_invariants none
        no_unwind
    {
        wipe_bytes(&mut self.password);
        match &mut self.subject_token {
            Some(token) => wipe_bytes(token),
            None => {},
        }
    }
}

/// A claimed attempt with what its provider is given.
pub struct AttemptLease {
    attempt_id: [u8; 16],
    lease_token: [u8; 16],
    credential_id: [u8; 16],
    revision_id: [u8; 16],
    destination: String,
    context: Vec<u8>,
    integration_id: String,
    method: String,
    owner: AgentIdentity,
    username: String,
    password: Vec<u8>,
    subject_token: Option<Vec<u8>>,
    totp: Option<TotpLease>,
    reconciliation: bool,
}

/// The contents of a [`AttemptLease`].
pub struct LeaseModel {
    pub attempt_id: [u8; 16],
    pub lease_token: [u8; 16],
    pub credential_id: [u8; 16],
    pub revision_id: [u8; 16],
    pub destination: Seq<char>,
    pub context: Seq<u8>,
    pub integration_id: Seq<char>,
    pub method: Seq<char>,
    pub owner: IdentityModel,
    pub username: Seq<char>,
    pub password: Seq<u8>,
    pub subject_token: Option<Seq<u8>>,
    pub totp: Option<TotpLeaseModel>,
    pub reconciliation: bool,
}

impl View for AttemptLease {
    type V = LeaseModel;

    closed spec fn view(&self) -> LeaseModel {
        LeaseModel {
            attempt_id: self.attempt_id,
            lease_token: self.lease_token,
            credential_id: self.credential_id,
            revision_id: self.revision_id,
            destination: self.destination@,
            context: self.context@,
            integration_id: self.integration_id@,
            method: self.method@,
            owner: self.owner@,
            username: self.username@,
            password: self.password@,
            subject_token: opt_vec(self.subject_token),
            totp: totp_view(self.totp),
            reconciliation: self.reconciliation,
        }
    }
}

impl AttemptLease {
    /// A lease on a claimed attempt.
    pub fn new(
        snapshot: &AttemptSnapshot,
        lease_token: [u8; 16],
        execution: Execution,
        owner: AgentIdentity,
        material: CredentialMaterial,
        reconciliation: bool,
    ) -> (r: AttemptLease)
        ensures
            r@ == (LeaseModel {
                attempt_id: snapshot@.attempt_id,
                lease_token,
                credential_id: snapshot@.credential_id,
                revision_id: snapshot@.revision_id,
                destination: execution@.destination,
                context: execution@.context,
                integration_id: snapshot@.integration_id,
                method: execution@.method,
                owner: owner@,
                username: material@.username,
                password: material@.password,
                subject_token: material@.subject_token,
                totp: material@.totp,
                reconciliation,
            }),
    {
        let mut material = material;
        let mut username = String::new();
        let mut password: Vec<u8> = Vec::new();
        let mut subject_token: Option<Vec<u8>> = None;
        let mut totp: Option<TotpLease> = None;
        std::mem::swap(&mut username, &mut material.username);
        std::mem::swap(&mut password, &mut material.password);
        std::mem::swap(&mut subject_token, &mut material.subject_token);
        std::mem::swap(&mut totp, &mut material.totp);
        AttemptLease {
            attempt_id: *snapshot.attempt_id(),
            lease_token,
            credential_id: *snapshot.credential_id(),
            revision_id: *snapshot.revision_id(),
            destination: execution.destination,
            context: execution.context,
            integration_id: snapshot.integration_id().to_owned(),
            method: execution.method,
            owner,
            username,
            password,
            subject_token,
            totp,
            reconciliation,
        }
    }

    pub fn attempt_id(&self) -> (r: &[u8; 16])
        ensures
            *r == self@.attempt_id,
    {
        &self.attempt_id
    }

    pub fn lease_token(&self) -> (r: &[u8; 16])
        ensures
            *r == self@.lease_token,
    {
        &self.lease_token
    }

    pub fn credential_id(&self) -> (r: &[u8; 16])
        ensures
            *r == self@.credential_id,
    {
        &self.credential_id
    }

    pub fn revision_id(&self) -> (r: &[u8; 16])
        ensures
            *r == self@.revision_id,
    {
        &self.revision_id
    }

    pub fn destination(&self) -> (r: &str)
        ensures
            r@ == self@.destination,
    {
        self.destination.as_str()
    }

    pub fn context(&self) -> (r: &[u8])
        ensures
            r@ == self@.context,
    {
        self.context.as_slice()
    }

    pub fn integration_id(&self) -> (r: &str)
        ensures
            r@ == self@.integration_id,
    {
        self.integration_id.as_str()
    }

    pub fn method(&self) -> (r: &str)
        ensures
            r@ == self@.method,
    {
        self.method.as_str()
    }

    pub fn username(&self) -> (r: &str)
        ensures
            r@ == self@.username,
    {
        self.username.as_str()
    }

    pub fn password(&self) -> (r: &[u8])
        ensures
            r@ == self@.password,
    {
        self.password.as_slice()
    }

    /// The agent that the attempt belongs to.
    pub fn owner(&self) -> (r: &AgentIdentity)
        ensures
            r@ == self@.owner,
    {
        &self.owner
    }

    /// The subject token of a token exchange.
    pub fn subject_token(&self) -> (r: Option<&[u8]>)
        ensures
            opt_view(r) == self@.subject_token,
    {
        vec_slice(&self.subject_token)
    }

    pub fn totp(&self) -> (r: Option<&TotpLease>)
        ensures
            match self@.totp {
                Some(m) => r is Some && (r->0)@ == m,
                None => r is None,
            },
    {
        self.totp.as_ref()
    }

    /// Whether the provider is only asked how an earlier use ended.
    pub fn reconciliation_only(&self) -> (r: bool)
        ensures
            r == self@.reconciliation,
    {
        self.reconciliation
    }

    /// Erases the secrets.
    pub fn wipe(&mut self)
        ensures
            final(self)@.password.len() == 0,
            final(self)@.subject_token is Some ==> final(self)@.subject_token->0.len() == 0,
            final(self)@.totp is Some ==> final(self)@.totp->0.secret.len() == 0,
            final(self)@.subject_token is Some <==> old(self)@.subject_token is Some,
            final(self)@.totp is Some <==> old(self)@.totp is Some,
            final(self)@ == (LeaseModel {
                password: final(self)@.password,
                subject_token: final(self)@.subject_token,
                totp: final(self)@.totp,
                ..old(self)@
            }),
        opens_invariants none
        no_unwind
    {
        wipe_bytes(&mut self.password);
        match &mut self.subject_token {
            Some(token) => wipe_bytes(token),
            None => {},
        }
        match &mut self.totp {
            Some(totp) => totp.wipe(),
            None => {},
        }
    }
}

impl Drop for AttemptLease {
    /// Erases the secrets when the lease is released.
    fn drop(&mut self)
        ensures
            final(self)@.password.len() == 0,
            final(self)@.subject_token is Some ==> final(self)@.subject_token->0.len() == 0,
            final(self)@.totp is Some ==> final(self)@.totp->0.secret.len() == 0,
            final(self)@.subject_token is Some <==> old(self)@.subject_token is Some,
            final(self)@.totp is Some <==> old(self)@.totp is Some,
            final(self)@ == (LeaseModel {
                password: final(self)@.password,
                subject_token: final(self)@.subject_token,
                totp: final(self)@.totp,
                ..old(self)@
            }),
        opens_invariants none
        no_unwind
    {
        self.wipe();
    }
}

/// The fields of one stored way to authenticate, as far as they are known.
pub struct Fields {
    method: Option<String>,
    username: Option<String>,
    password: Option<Vec<u8>>,
    secret: Option<Vec<u8>>,
    algorithm: Option<TotpAlgorithm>,
    digits: Option<u8>,
    period: Option<u16>,
    t0: Option<u64>,
    account: Option<String>,
}

/// The contents of a [`Fields`].
pub struct FieldsModel {
    pub method: Option<Seq<char>>,
    pub username: Option<Seq<char>>,
    pub password: Option<Seq<u8>>,
    pub secret: Option<Seq<u8>>,
    pub algorithm: Option<TotpAlgorithm>,
    pub digits: Option<u8>,
    pub period: Option<u16>,
    pub t0: Option<u64>,
    pub account: Option<Seq<char>>,
}

impl View for Fields {
    type V = FieldsModel;

    closed spec fn view(&self) -> FieldsModel {
        FieldsModel {
            method: opt_string(self.method),
            username: opt_string(self.username),
            password: opt_vec(self.password),
            secret: opt_vec(self.secret),
            algorithm: self.algorithm,
            digits: self.digits,
            period: self.period,
            t0: self.t0,
            account: opt_string(self.account),
        }
    }
}

/// No fields.
pub open spec fn no_fields() -> FieldsModel {
    FieldsModel {
        method: None,
        username: None,
        password: None,
        secret: None,
        algorithm: None,
        digits: None,
        period: None,
        t0: None,
        account: None,
    }
}

/// The hash that a stored name stands for.
pub open spec fn algorithm_of(s: Seq<char>) -> Option<TotpAlgorithm> {
    if s == totp_algorithm_name(TotpAlgorithm::Sha1) {
        Some(TotpAlgorithm::Sha1)
    } else if s == totp_algorithm_name(TotpAlgorithm::Sha256) {
        Some(TotpAlgorithm::Sha256)
    } else if s == totp_algorithm_name(TotpAlgorithm::Sha512) {
        Some(TotpAlgorithm::Sha512)
    } else {
        None
    }
}

/// The hash at the front of `b` and what follows it.
pub open spec fn algorithm_at(b: Seq<u8>) -> Option<(TotpAlgorithm, Seq<u8>)> {
    match take_text(b) {
        Some((s, t)) => match algorithm_of(s) {
            Some(algorithm) => Some((algorithm, t)),
            None => None,
        },
        None => None,
    }
}

/// The fields `f` with the one at the front of `b`, and what follows it. Fields
/// of other names are passed over.
pub open spec fn field_at(f: FieldsModel, b: Seq<u8>) -> Option<(FieldsModel, Seq<u8>)> {
    match take_text(b) {
        Some((key, b)) => {
            if key == "method"@ {
                match take_text(b) {
                    Some((v, b)) => Some((FieldsModel { method: Some(v), ..f }, b)),
                    None => None,
                }
            } else if key == "username"@ {
                match take_text(b) {
                    Some((v, b)) => Some((FieldsModel { username: Some(v), ..f }, b)),
                    None => None,
                }
            } else if key == "password"@ {
                match take_bytes(b) {
                    Some((v, b)) => Some((FieldsModel { password: Some(v), ..f }, b)),
                    None => None,
                }
            } else if key == "secret"@ {
                match take_bytes(b) {
                    Some((v, b)) => Some((FieldsModel { secret: Some(v), ..f }, b)),
                    None => None,
                }
            } else if key == "algorithm"@ {
                match algorithm_at(b) {
                    Some((v, b)) => Some((FieldsModel { algorithm: Some(v), ..f }, b)),
                    None => None,
                }
            } else if key == "digits"@ {
                match take_uint_to(b, u8::MAX as u64) {
                    Some((v, b)) => Some((FieldsModel { digits: Some(v as u8), ..f }, b)),
                    None => None,
                }
            } else if key == "period"@ {
                match take_uint_to(b, u16::MAX as u64) {
                    Some((v, b)) => Some((FieldsModel { period: Some(v as u16), ..f }, b)),
                    None => None,
                }
            } else if key == "t0"@ {
                match take_uint(b) {
                    Some((v, b)) => Some((FieldsModel { t0: Some(v), ..f }, b)),
                    None => None,
                }
            } else if key == "account"@ {
                match take_text(b) {
                    Some((v, b)) => Some((FieldsModel { account: Some(v), ..f }, b)),
                    None => None,
                }
            } else {
                match passed(b) {
                    Some(b) => Some((f, b)),
                    None => None,
                }
            }
        },
        None => None,
    }
}

/// The fields `f` with the `n` at the front of `b`, and what follows them.
pub open spec fn fields_at(f: FieldsModel, b: Seq<u8>, n: nat) -> Option<(FieldsModel, Seq<u8>)>
    decreases n,
{
    if n == 0 {
        Some((f, b))
    } else {
        match field_at(f, b) {
            Some((g, t)) => fields_at(g, t, (n - 1) as nat),
            None => None,
        }
    }
}

/// What has been found of a credential: its account, its password and its
/// one-time password with the account that it is for.
pub struct Found {
    pub username: Option<Seq<char>>,
    pub password: Option<Seq<u8>>,
    pub totp: Option<(Seq<char>, TotpLeaseModel)>,
}

/// What is found with one more way to authenticate, or nothing where a part of
/// it is missing.
pub open spec fn found_with(m: Found, f: FieldsModel) -> Option<Found> {
    if f.method == Some("password"@) {
        if f.username is Some && f.password is Some {
            Some(Found { username: f.username, password: f.password, ..m })
        } else {
            None
        }
    } else if f.method == Some("totp"@) {
        if f.account is Some && f.secret is Some && f.algorithm is Some && f.digits is Some
            && f.period is Some && f.t0 is Some {
            Some(
                Found {
                    totp: Some(
                        (
                            f.account->0,
                            TotpLeaseModel {
                                secret: f.secret->0,
                                algorithm: f.algorithm->0,
                                digits: f.digits->0,
                                period: f.period->0,
                                t0: f.t0->0,
                            },
                        ),
                    ),
                    ..m
                },
            )
        } else {
            None
        }
    } else {
        Some(m)
    }
}

/// What is found in the `n` entries at the front of `b` after `m`.
pub open spec fn found_at(m: Found, b: Seq<u8>, n: nat) -> Option<Found>
    decreases n,
{
    if n == 0 {
        Some(m)
    } else {
        match take_map(b) {
            Some((fields, b)) => match fields_at(no_fields(), b, fields as nat) {
                Some((f, b)) => match found_with(m, f) {
                    Some(m) => found_at(m, b, (n - 1) as nat),
                    None => None,
                },
                None => None,
            },
            None => None,
        }
    }
}

/// Nothing.
pub open spec fn nothing() -> Found {
    Found { username: None, password: None, totp: None }
}

/// What is found in a stored list of ways to authenticate.
pub open spec fn found_in(auth: Seq<u8>) -> Option<Found> {
    match take_array(auth) {
        Some((n, b)) => found_at(nothing(), b, n as nat),
        None => None,
    }
}

/// What a provider is given of what was found: the last password, and with a
/// one-time password only one that is for the same account.
pub open spec fn given(m: Found, method: Seq<char>) -> Result<MaterialModel, AttemptError> {
    if m.username is None || m.password is None {
        Err(AttemptError::CredentialUnavailable)
    } else if method == "password_totp"@ {
        if m.totp is Some && (m.totp->0).0 == m.username->0 {
            Ok(
                MaterialModel {
                    username: m.username->0,
                    password: m.password->0,
                    subject_token: None,
                    totp: Some((m.totp->0).1),
                },
            )
        } else {
            Err(AttemptError::CredentialUnavailable)
        }
    } else {
        Ok(
            MaterialModel {
                username: m.username->0,
                password: m.password->0,
                subject_token: None,
                totp: None,
            },
        )
    }
}

/// The password material of a stored list of ways to authenticate.
pub open spec fn password_of(auth: Seq<u8>, method: Seq<char>) -> Result<
    MaterialModel,
    AttemptError,
> {
    match found_in(auth) {
        Some(m) => given(m, method),
        None => Err(AttemptError::Integrity),
    }
}

/// Reads a hash.
fn read_algorithm(d: &mut Reader) -> (r: Option<TotpAlgorithm>)
    ensures
        match algorithm_at(old(d).rest()) {
            Some((a, t)) => r == Some(a) && final(d).rest() == t,
            None => r is None,
        },
{
    let name = d.str()?;
    let r = TotpAlgorithm::parse(name);
    proof {
        if r is Some {
            lemma_algorithm(r->0);
        }
    }
    r
}

/// Every hash is read back from its name.
proof fn lemma_algorithm(a: TotpAlgorithm)
    ensures
        algorithm_of(totp_algorithm_name(a)) == Some(a),
{
    lemma_totp_algorithm_names_differ(a, TotpAlgorithm::Sha1);
    lemma_totp_algorithm_names_differ(a, TotpAlgorithm::Sha256);
    lemma_totp_algorithm_names_differ(a, TotpAlgorithm::Sha512);
}

/// Reads one field.
fn read_field(f: &mut Fields, d: &mut Reader) -> (r: Option<()>)
    ensures
        match field_at(old(f)@, old(d).rest()) {
            Some((g, t)) => r is Some && final(f)@ == g && final(d).rest() == t,
            None => r is None,
        },
{
    let key = d.str()?;
    if same_str(key, "method") {
        let v = d.str()?.to_owned();
        f.method = Some(v);
    } else if same_str(key, "username") {
        let v = d.str()?.to_owned();
        f.username = Some(v);
    } else if same_str(key, "password") {
        let v = slice_to_vec(d.bytes()?);
        f.password = Some(v);
    } else if same_str(key, "secret") {
        let v = slice_to_vec(d.bytes()?);
        f.secret = Some(v);
    } else if same_str(key, "algorithm") {
        let v = read_algorithm(d)?;
        f.algorithm = Some(v);
    } else if same_str(key, "digits") {
        let v: u8 = d.u8()?;
        f.digits = Some(v);
    } else if same_str(key, "period") {
        let v: u16 = d.u16()?;
        f.period = Some(v);
    } else if same_str(key, "t0") {
        let v: u64 = d.u64()?;
        f.t0 = Some(v);
    } else if same_str(key, "account") {
        let v = d.str()?.to_owned();
        f.account = Some(v);
    } else {
        d.skip()?;
    }
    Some(())
}

/// Reads the fields of one way to authenticate.
fn read_fields(d: &mut Reader) -> (r: Option<Fields>)
    ensures
        match take_map(old(d).rest()) {
            Some((n, b)) => match fields_at(no_fields(), b, n as nat) {
                Some((f, t)) => r is Some && (r->0)@ == f && final(d).rest() == t,
                None => r is None,
            },
            None => r is None,
        },
{
    let n: u64 = d.map()?;
    let ghost start = d.rest();
    let mut f = Fields {
        method: None,
        username: None,
        password: None,
        secret: None,
        algorithm: None,
        digits: None,
        period: None,
        t0: None,
        account: None,
    };
    let mut i: u64 = 0;
    while i < n
        invariant
            i <= n,
            take_map(old(d).rest()) == Some((n, start)),
            fields_at(no_fields(), start, n as nat) == fields_at(f@, d.rest(), (n - i) as nat),
        decreases n - i,
    {
        read_field(&mut f, d)?;
        i += 1;
    }
    Some(f)
}

/// What has been read of a credential.
struct Collected {
    username: Option<String>,
    password: Option<Vec<u8>>,
    totp: Option<(String, TotpLease)>,
}

impl View for Collected {
    type V = Found;

    closed spec fn view(&self) -> Found {
        Found {
            username: opt_string(self.username),
            password: opt_vec(self.password),
            totp: match self.totp {
                Some((account, lease)) => Some((account@, lease@)),
                None => None,
            },
        }
    }
}

/// Whether an optional text is that one.
fn is_text(value: &Option<String>, text: &str) -> (r: bool)
    ensures
        r == (opt_string(*value) == Some(text@)),
{
    match value {
        Some(s) => same_str(s.as_str(), text),
        None => false,
    }
}

/// Adds one way to authenticate to what has been read.
fn collect(m: &mut Collected, f: Fields) -> (r: Option<()>)
    ensures
        match found_with(old(m)@, f@) {
            Some(n) => r is Some && final(m)@ == n,
            None => r is None,
        },
{
    if is_text(&f.method, "password") {
        match (f.username, f.password) {
            (Some(username), Some(password)) => {
                m.username = Some(username);
                m.password = Some(password);
                Some(())
            },
            _ => None,
        }
    } else if is_text(&f.method, "totp") {
        match (f.account, f.secret, f.algorithm, f.digits, f.period, f.t0) {
            (
                Some(account),
                Some(secret),
                Some(algorithm),
                Some(digits),
                Some(period),
                Some(t0),
            ) => {
                m.totp = Some((account, TotpLease { secret, algorithm, digits, period, t0 }));
                Some(())
            },
            _ => None,
        }
    } else {
        Some(())
    }
}

/// Reads a stored list of ways to authenticate.
fn read_found(auth: &[u8]) -> (r: Option<Collected>)
    ensures
        match found_in(auth@) {
            Some(m) => r is Some && (r->0)@ == m,
            None => r is None,
        },
{
    let mut d = Reader::new(auth);
    let n: u64 = d.array()?;
    let ghost start = d.rest();
    let mut m = Collected { username: None, password: None, totp: None };
    let mut i: u64 = 0;
    while i < n
        invariant
            i <= n,
            take_array(auth@) == Some((n, start)),
            found_at(nothing(), start, n as nat) == found_at(m@, d.rest(), (n - i) as nat),
        decreases n - i,
    {
        let f = read_fields(&mut d)?;
        collect(&mut m, f)?;
        i += 1;
    }
    Some(m)
}

/// The password material of a stored list of ways to authenticate.
pub fn password_material(auth: &[u8], method: &str) -> (r: Result<
    CredentialMaterial,
    AttemptError,
>)
    ensures
        match password_of(auth@, method@) {
            Ok(m) => r is Ok && (r->Ok_0)@ == m,
            Err(e) => r is Err && r->Err_0 == e,
        },
{
    let found = match read_found(auth) {
        Some(found) => found,
        None => return Err(AttemptError::Integrity),
    };
    let (username, password) = match (found.username, found.password) {
        (Some(username), Some(password)) => (username, password),
        _ => return Err(AttemptError::CredentialUnavailable),
    };
    if !same_str(method, "password_totp") {
        return Ok(CredentialMaterial { username, password, subject_token: None, totp: None });
    }
    match found.totp {
        Some((account, lease)) => if same_str(account.as_str(), username.as_str()) {
            Ok(CredentialMaterial { username, password, subject_token: None, totp: Some(lease) })
        } else {
            Err(AttemptError::CredentialUnavailable)
        },
        None => Err(AttemptError::CredentialUnavailable),
    }
}

/// What follows `n` indices at the front of `b`.
pub open spec fn indices_after(b: Seq<u8>, n: nat) -> Option<Seq<u8>>
    decreases n,
{
    if n == 0 {
        Some(b)
    } else {
        match take_uint_to(b, u16::MAX as u64) {
            Some((_, t)) => indices_after(t, (n - 1) as nat),
            None => None,
        }
    }
}

/// What follows the list of indices at the front of `b`.
pub open spec fn refs_after(b: Seq<u8>) -> Option<Seq<u8>> {
    match take_array(b) {
        Some((n, t)) => indices_after(t, n as nat),
        None => None,
    }
}

/// The instant at the front of `b`, or nothing where the null value stands, and
/// what follows.
pub open spec fn instant_at(b: Seq<u8>) -> Option<(Option<i64>, Seq<u8>)> {
    match take_null(b) {
        Some(t) => Some((None, t)),
        None => match take_int(b) {
            Some((n, t)) => Some((Some(n), t)),
            None => None,
        },
    }
}

/// The parts of a stored token exchange for a destination.
pub struct ExchangeModel {
    pub subject_token: Seq<u8>,
    pub username: Seq<char>,
    pub password: Seq<u8>,
    pub expires: Option<i64>,
    pub left: Seq<u8>,
}

/// The token exchange at the front of `b`.
pub open spec fn exchange_at(b: Seq<u8>, destination: Seq<char>) -> Option<ExchangeModel> {
    let fields = match take_array_of(b, 1) {
        Some(b) => take_map_of(b, 8),
        None => None,
    };
    let method = next_key(next_key(fields, "method"@), "token_exchange"@);
    let subject_token = next_bytes(next_key(method, "subject_token"@));
    let username = next_text(next_key(after(subject_token), "requester_client_id"@));
    let password = next_bytes(next_key(after(username), "requester_client_secret"@));
    let provider = next_key(next_key(after(password), "provider"@), "keycloak"@);
    let profile = next_key(next_key(provider, "profile_id"@), destination);
    let refs = match next_key(profile, "destination_refs"@) {
        Some(b) => refs_after(b),
        None => None,
    };
    let expires = match next_key(refs, "expires_at"@) {
        Some(b) => instant_at(b),
        None => None,
    };
    if expires is Some {
        Some(
            ExchangeModel {
                subject_token: (subject_token->0).0,
                username: (username->0).0,
                password: (password->0).0,
                expires: (expires->0).0,
                left: (expires->0).1,
            },
        )
    } else {
        None
    }
}

/// The token material of a stored way to authenticate: usable are only a whole
/// entry, a token and a secret that are not empty, and before it expires.
pub open spec fn token_of(auth: Seq<u8>, destination: Seq<char>, now: i64) -> Result<
    MaterialModel,
    AttemptError,
> {
    match exchange_at(auth, destination) {
        Some(x) => if x.left.len() > 0 || x.subject_token.len() == 0 || x.password.len() == 0 || (
        x.expires is Some && x.expires->0 <= now) {
            Err(AttemptError::CredentialUnavailable)
        } else {
            Ok(
                MaterialModel {
                    username: x.username,
                    password: x.password,
                    subject_token: Some(x.subject_token),
                    totp: None,
                },
            )
        },
        None => Err(AttemptError::Integrity),
    }
}

/// The parts of a stored token exchange.
struct Exchange {
    subject_token: Vec<u8>,
    username: String,
    password: Vec<u8>,
    expires: Option<i64>,
}

/// Passes over a list of indices.
fn skip_refs(d: &mut Reader) -> (r: Option<()>)
    ensures
        match refs_after(old(d).rest()) {
            Some(t) => r is Some && final(d).rest() == t,
            None => r is None,
        },
{
    let n: u64 = d.array()?;
    let mut i: u64 = 0;
    while i < n
        invariant
            i <= n,
            refs_after(old(d).rest()) == indices_after(d.rest(), (n - i) as nat),
        decreases n - i,
    {
        d.u16()?;
        i += 1;
    }
    Some(())
}

/// Reads an instant, or nothing where the null value stands.
fn read_instant(d: &mut Reader) -> (r: Option<Option<i64>>)
    ensures
        match instant_at(old(d).rest()) {
            Some((n, t)) => r == Some(n) && final(d).rest() == t,
            None => r is None,
        },
{
    if d.is_null() {
        d.null()?;
        Some(None)
    } else {
        let n: i64 = d.i64()?;
        Some(Some(n))
    }
}

/// Reads a token exchange for a destination.
fn read_exchange(d: &mut Reader, destination: &str) -> (r: Option<Exchange>)
    ensures
        match exchange_at(old(d).rest(), destination@) {
            Some(x) => r is Some && (r->0).subject_token@ == x.subject_token && (r->0).username@
                == x.username && (r->0).password@ == x.password && (r->0).expires == x.expires
                && final(d).rest() == x.left,
            None => r is None,
        },
{
    d.array_of(1)?;
    d.map_of(8)?;
    d.key("method")?;
    d.key("token_exchange")?;
    d.key("subject_token")?;
    let subject_token = d.bytes()?;
    d.key("requester_client_id")?;
    let username = d.str()?;
    d.key("requester_client_secret")?;
    let password = d.bytes()?;
    d.key("provider")?;
    d.key("keycloak")?;
    d.key("profile_id")?;
    d.key(destination)?;
    d.key("destination_refs")?;
    skip_refs(d)?;
    d.key("expires_at")?;
    let expires = read_instant(d)?;
    Some(
        Exchange {
            subject_token: slice_to_vec(subject_token),
            username: username.to_owned(),
            password: slice_to_vec(password),
            expires,
        },
    )
}

/// The token material of a stored way to authenticate.
pub fn token_exchange_material(auth: &[u8], destination: &str, now: i64) -> (r: Result<
    CredentialMaterial,
    AttemptError,
>)
    ensures
        match token_of(auth@, destination@, now) {
            Ok(m) => r is Ok && (r->Ok_0)@ == m,
            Err(e) => r is Err && r->Err_0 == e,
        },
{
    let mut d = Reader::new(auth);
    let x = match read_exchange(&mut d, destination) {
        Some(x) => x,
        None => return Err(AttemptError::Integrity),
    };
    let over = match x.expires {
        Some(value) => value <= now,
        None => false,
    };
    if !d.at_end() || x.subject_token.len() == 0 || x.password.len() == 0 || over {
        return Err(AttemptError::CredentialUnavailable);
    }
    Ok(
        CredentialMaterial {
            username: x.username,
            password: x.password,
            subject_token: Some(x.subject_token),
            totp: None,
        },
    )
}

/// What a provider is given: nothing where it is only asked how an earlier use
/// ended.
pub open spec fn material_of(
    reconcile: bool,
    integration: Seq<char>,
    auth: Seq<u8>,
    destination: Seq<char>,
    method: Seq<char>,
    now: i64,
) -> Result<MaterialModel, AttemptError> {
    if reconcile {
        Ok(
            MaterialModel {
                username: Seq::empty(),
                password: Seq::empty(),
                subject_token: None,
                totp: None,
            },
        )
    } else if integration == "keycloak-token-exchange"@ {
        token_of(auth, destination, now)
    } else {
        password_of(auth, method)
    }
}

/// What a provider is given of a credential.
pub fn credential_material(
    reconcile: bool,
    integration: &str,
    auth: &[u8],
    destination: &str,
    method: &str,
    now: i64,
) -> (r: Result<CredentialMaterial, AttemptError>)
    ensures
        match material_of(reconcile, integration@, auth@, destination@, method@, now) {
            Ok(m) => r is Ok && (r->Ok_0)@ == m,
            Err(e) => r is Err && r->Err_0 == e,
        },
{
    if reconcile {
        let password: Vec<u8> = Vec::new();
        assert(password@ =~= Seq::empty());
        let username = "".to_owned();
        proof {
            reveal_strlit("");
            assert(username@ =~= Seq::empty());
        }
        Ok(CredentialMaterial { username, password, subject_token: None, totp: None })
    } else if same_str(integration, "keycloak-token-exchange") {
        token_exchange_material(auth, destination, now)
    } else {
        password_material(auth, method)
    }
}

/// Whether a field is one that the material is made of.
pub open spec fn is_known(key: Seq<char>) -> bool {
    key == "method"@ || key == "username"@ || key == "password"@ || key == "secret"@
        || key == "algorithm"@ || key == "digits"@ || key == "period"@ || key == "t0"@
        || key == "account"@
}

/// The fields that the material is made of have different names, and no other
/// field has one of them.
proof fn lemma_field_names()
    ensures
        "username"@ != "method"@,
        "password"@ != "method"@,
        "password"@ != "username"@,
        "secret"@ != "method"@,
        "secret"@ != "username"@,
        "secret"@ != "password"@,
        "algorithm"@ != "method"@,
        "algorithm"@ != "username"@,
        "algorithm"@ != "password"@,
        "algorithm"@ != "secret"@,
        "digits"@ != "method"@,
        "digits"@ != "username"@,
        "digits"@ != "password"@,
        "digits"@ != "secret"@,
        "digits"@ != "algorithm"@,
        "period"@ != "method"@,
        "period"@ != "username"@,
        "period"@ != "password"@,
        "period"@ != "secret"@,
        "period"@ != "algorithm"@,
        "period"@ != "digits"@,
        "t0"@ != "method"@,
        "t0"@ != "username"@,
        "t0"@ != "password"@,
        "t0"@ != "secret"@,
        "t0"@ != "algorithm"@,
        "t0"@ != "digits"@,
        "t0"@ != "period"@,
        "account"@ != "method"@,
        "account"@ != "username"@,
        "account"@ != "password"@,
        "account"@ != "secret"@,
        "account"@ != "algorithm"@,
        "account"@ != "digits"@,
        "account"@ != "period"@,
        "account"@ != "t0"@,
        !is_known("destination_refs"@),
        !is_known("issuer"@),
        !is_known("rp_id"@),
        !is_known("user_handle"@),
        !is_known("credential_id"@),
        !is_known("cose_alg"@),
        !is_known("private_key"@),
        !is_known("public_key"@),
        !is_known("user_name"@),
        !is_known("display_name"@),
        !is_known("sign_count"@),
        !is_known("backup_eligible"@),
        !is_known("backup_state"@),
        !is_known("private_format"@),
        !is_known("passphrase"@),
        !is_known("provider"@),
        !is_known("profile_id"@),
        !is_known("expires_at"@),
        "password"@ != "totp"@,
        "passkey"@ != "password"@,
        "passkey"@ != "totp"@,
        "ssh"@ != "password"@,
        "ssh"@ != "totp"@,
        "token"@ != "password"@,
        "token"@ != "totp"@,
{
    reveal_strlit("method");
    reveal_strlit("username");
    reveal_strlit("password");
    reveal_strlit("secret");
    reveal_strlit("algorithm");
    reveal_strlit("digits");
    reveal_strlit("period");
    reveal_strlit("t0");
    reveal_strlit("account");
    reveal_strlit("destination_refs");
    reveal_strlit("issuer");
    reveal_strlit("rp_id");
    reveal_strlit("user_handle");
    reveal_strlit("credential_id");
    reveal_strlit("cose_alg");
    reveal_strlit("private_key");
    reveal_strlit("public_key");
    reveal_strlit("user_name");
    reveal_strlit("display_name");
    reveal_strlit("sign_count");
    reveal_strlit("backup_eligible");
    reveal_strlit("backup_state");
    reveal_strlit("private_format");
    reveal_strlit("passphrase");
    reveal_strlit("provider");
    reveal_strlit("profile_id");
    reveal_strlit("expires_at");
    reveal_strlit("totp");
    reveal_strlit("passkey");
    reveal_strlit("ssh");
    reveal_strlit("token");
    assert("method"@.len() == 6);
    assert("username"@.len() == 8);
    assert("password"@.len() == 8);
    assert("secret"@.len() == 6);
    assert("algorithm"@.len() == 9);
    assert("digits"@.len() == 6);
    assert("period"@.len() == 6);
    assert("t0"@.len() == 2);
    assert("account"@.len() == 7);
    assert("destination_refs"@.len() == 16);
    assert("issuer"@.len() == 6);
    assert("rp_id"@.len() == 5);
    assert("user_handle"@.len() == 11);
    assert("credential_id"@.len() == 13);
    assert("cose_alg"@.len() == 8);
    assert("private_key"@.len() == 11);
    assert("public_key"@.len() == 10);
    assert("user_name"@.len() == 9);
    assert("display_name"@.len() == 12);
    assert("sign_count"@.len() == 10);
    assert("backup_eligible"@.len() == 15);
    assert("backup_state"@.len() == 12);
    assert("private_format"@.len() == 14);
    assert("passphrase"@.len() == 10);
    assert("provider"@.len() == 8);
    assert("profile_id"@.len() == 10);
    assert("expires_at"@.len() == 10);
    assert("totp"@.len() == 4);
    assert("passkey"@.len() == 7);
    assert("ssh"@.len() == 3);
    assert("token"@.len() == 5);
    assert("password"@[0] == 'p');
    assert("username"@[0] == 'u');
    assert("secret"@[0] == 's');
    assert("method"@[0] == 'm');
    assert("digits"@[0] == 'd');
    assert("period"@[0] == 'p');
    assert("issuer"@[0] == 'i');
    assert("cose_alg"@[0] == 'c');
    assert("private_key"@[0] == 'p');
    assert("user_handle"@[0] == 'u');
    assert("user_name"@[0] == 'u');
    assert("algorithm"@[0] == 'a');
    assert("sign_count"@[0] == 's');
    assert("public_key"@[0] == 'p');
    assert("backup_state"@[0] == 'b');
    assert("display_name"@[0] == 'd');
    assert("passphrase"@[1] == 'a');
    assert("public_key"@[1] == 'u');
    assert("passphrase"@[0] == 'p');
    assert("provider"@[0] == 'p');
    assert("provider"@[1] == 'r');
    assert("password"@[1] == 'a');
    assert("profile_id"@[1] == 'r');
    assert("profile_id"@[0] == 'p');
    assert("expires_at"@[0] == 'e');
    assert("passkey"@[0] == 'p');
    assert("account"@[0] == 'a');
    assert("token"@[0] == 't');
    assert("rp_id"@[0] == 'r');
}

/// A list of indices is one item.
proof fn lemma_refs_items(v: Seq<u16>, t: Seq<u8>, n: nat)
    requires
        refs_tail(v, t).len() <= u64::MAX,
    ensures
        items_after(refs_tail(v, t), v.len() + n) == items_after(t, n),
        t.len() + v.len() <= refs_tail(v, t).len(),
    decreases v.len(),
{
    if v.len() > 0 {
        let u = refs_tail(v.skip(1), t);
        lemma_items();
        lemma_head_len(0, v[0] as u64);
        lemma_refs_items(v.skip(1), t, n);
        assert(refs_tail(v, t) == uint_item(v[0] as u64) + u);
        assert(items_after(uint_item(v[0] as u64) + u, v.len() + n) == items_after(
            u,
            (v.len() + n - 1) as nat,
        ));
    }
}

/// A list of indices is one item.
proof fn lemma_refs_item(v: Seq<u16>, t: Seq<u8>)
    requires
        refs_then(v, t).len() <= u64::MAX,
    ensures
        items_after(refs_then(v, t), 1) == Some(t),
        t.len() <= refs_then(v, t).len(),
{
    let u = refs_tail(v, t);
    lemma_items();
    lemma_refs_items(v, t, 0);
    assert(items_after(array_head(v.len() as u64) + u, 1) == items_after(u, v.len()));
}

/// What is found with one more way to authenticate.
pub open spec fn gathered(m: Found, a: AuthModel) -> Found {
    match a {
        AuthModel::Password { username, password, destination_refs } => Found {
            username: Some(username),
            password: Some(password),
            ..m
        },
        AuthModel::Totp {
            secret,
            algorithm,
            digits,
            period,
            t0,
            issuer,
            account,
            destination_refs,
        } => Found {
            totp: Some((account, TotpLeaseModel { secret, algorithm, digits, period, t0 })),
            ..m
        },
        _ => m,
    }
}

/// What is found in a list of ways to authenticate: the last password and the
/// last one-time password.
pub open spec fn gathered_all(m: Found, v: Seq<AuthModel>) -> Found
    decreases v.len(),
{
    if v.len() == 0 {
        m
    } else {
        gathered_all(gathered(m, v[0]), v.skip(1))
    }
}

/// A written password entry is found.
#[verifier::rlimit(80)]
#[verifier::spinoff_prover]
proof fn lemma_password_entry(m: AuthModel, before: Found, t: Seq<u8>)
    requires
        m is Password,
        auth_then(m, t).len() <= u64::MAX,
    ensures
        entry_found(m, before, t),
{
    lemma_field_names();
    lemma_items();
    match m {
        AuthModel::Password { username, password, destination_refs } => {
            let u4 = t;
            let v3 = refs_then(destination_refs, u4);
            let u3 = text_item("destination_refs"@) + v3;
            let v2 = bytes_item(password) + u3;
            let u2 = text_item("password"@) + v2;
            let v1 = text_item(username) + u2;
            let u1 = text_item("username"@) + v1;
            let v0 = text_item("password"@) + u1;
            let u0 = text_item("method"@) + v0;
            let b = map_head(4) + u0;
            assert(b == auth_then(m, t));
            lemma_map(4, u0);
            lemma_head_len(5, 4);
            let f0 = no_fields();
            lemma_text_within("method"@, v0);
            lemma_text_within("password"@, u1);
            let f1 = FieldsModel { method: Some("password"@), ..f0 };
            assert(field_at(f0, u0) == Some((f1, u1)));
            lemma_text_within("username"@, v1);
            lemma_text_within(username, u2);
            let f2 = FieldsModel { username: Some(username), ..f1 };
            assert(field_at(f1, u1) == Some((f2, u2)));
            lemma_text_within("password"@, v2);
            lemma_bytes_within(password, u3);
            let f3 = FieldsModel { password: Some(password), ..f2 };
            assert(field_at(f2, u2) == Some((f3, u3)));
            lemma_text_within("destination_refs"@, v3);
            lemma_refs_item(destination_refs, u4);
            assert(passed(v3) == Some(u4));
            let f4 = f3;
            assert(field_at(f3, u3) == Some((f4, u4)));
            assert(fields_at(f0, u0, 4) == fields_at(f1, u1, 3));
            assert(fields_at(f1, u1, 3) == fields_at(f2, u2, 2));
            assert(fields_at(f2, u2, 2) == fields_at(f3, u3, 1));
            assert(fields_at(f3, u3, 1) == fields_at(f4, u4, 0));
        },
        _ => {},
    }
}

/// A written one-time password entry is found.
#[verifier::rlimit(80)]
#[verifier::spinoff_prover]
proof fn lemma_totp_entry(m: AuthModel, before: Found, t: Seq<u8>)
    requires
        m is Totp,
        auth_then(m, t).len() <= u64::MAX,
    ensures
        entry_found(m, before, t),
{
    lemma_field_names();
    lemma_items();
    match m {
        AuthModel::Totp { secret, algorithm, digits, period, t0, issuer, account,
            destination_refs } => {
            let u9 = t;
            let v8 = refs_then(destination_refs, u9);
            let u8 = text_item("destination_refs"@) + v8;
            let v7 = text_item(account) + u8;
            let u7 = text_item("account"@) + v7;
            let v6 = text_item(issuer) + u7;
            let u6 = text_item("issuer"@) + v6;
            let v5 = uint_item(t0) + u6;
            let u5 = text_item("t0"@) + v5;
            let v4 = uint_item(period as u64) + u5;
            let u4 = text_item("period"@) + v4;
            let v3 = uint_item(digits as u64) + u4;
            let u3 = text_item("digits"@) + v3;
            let v2 = text_item(totp_algorithm_name(algorithm)) + u3;
            let u2 = text_item("algorithm"@) + v2;
            let v1 = bytes_item(secret) + u2;
            let u1 = text_item("secret"@) + v1;
            let v0 = text_item("totp"@) + u1;
            let u0 = text_item("method"@) + v0;
            let b = map_head(9) + u0;
            assert(b == auth_then(m, t));
            lemma_map(9, u0);
            lemma_head_len(5, 9);
            let f0 = no_fields();
            lemma_text_within("method"@, v0);
            lemma_text_within("totp"@, u1);
            let f1 = FieldsModel { method: Some("totp"@), ..f0 };
            assert(field_at(f0, u0) == Some((f1, u1)));
            lemma_text_within("secret"@, v1);
            lemma_bytes_within(secret, u2);
            let f2 = FieldsModel { secret: Some(secret), ..f1 };
            assert(field_at(f1, u1) == Some((f2, u2)));
            lemma_text_within("algorithm"@, v2);
            lemma_text_within(totp_algorithm_name(algorithm), u3);
            lemma_algorithm(algorithm);
            let f3 = FieldsModel { algorithm: Some(algorithm), ..f2 };
            assert(field_at(f2, u2) == Some((f3, u3)));
            lemma_text_within("digits"@, v3);
            lemma_uint(digits as u64, u4);
            let f4 = FieldsModel { digits: Some(digits), ..f3 };
            assert(field_at(f3, u3) == Some((f4, u4)));
            lemma_text_within("period"@, v4);
            lemma_uint(period as u64, u5);
            let f5 = FieldsModel { period: Some(period), ..f4 };
            assert(field_at(f4, u4) == Some((f5, u5)));
            lemma_text_within("t0"@, v5);
            lemma_uint(t0, u6);
            let f6 = FieldsModel { t0: Some(t0), ..f5 };
            assert(field_at(f5, u5) == Some((f6, u6)));
            lemma_text_within("issuer"@, v6);
            lemma_text_within(issuer, u7);
            assert(items_after(v6, 1) == items_after(u7, 0));
            assert(passed(v6) == Some(u7));
            let f7 = f6;
            assert(field_at(f6, u6) == Some((f7, u7)));
            lemma_text_within("account"@, v7);
            lemma_text_within(account, u8);
            let f8 = FieldsModel { account: Some(account), ..f7 };
            assert(field_at(f7, u7) == Some((f8, u8)));
            lemma_text_within("destination_refs"@, v8);
            lemma_refs_item(destination_refs, u9);
            assert(passed(v8) == Some(u9));
            let f9 = f8;
            assert(field_at(f8, u8) == Some((f9, u9)));
            assert(fields_at(f0, u0, 9) == fields_at(f1, u1, 8));
            assert(fields_at(f1, u1, 8) == fields_at(f2, u2, 7));
            assert(fields_at(f2, u2, 7) == fields_at(f3, u3, 6));
            assert(fields_at(f3, u3, 6) == fields_at(f4, u4, 5));
            assert(fields_at(f4, u4, 5) == fields_at(f5, u5, 4));
            assert(fields_at(f5, u5, 4) == fields_at(f6, u6, 3));
            assert(fields_at(f6, u6, 3) == fields_at(f7, u7, 2));
            assert(fields_at(f7, u7, 2) == fields_at(f8, u8, 1));
            assert(fields_at(f8, u8, 1) == fields_at(f9, u9, 0));
        },
        _ => {},
    }
}

/// A written passkey entry is found.
#[verifier::rlimit(80)]
#[verifier::spinoff_prover]
proof fn lemma_passkey_entry(m: AuthModel, before: Found, t: Seq<u8>)
    requires
        m is Passkey,
        auth_then(m, t).len() <= u64::MAX,
    ensures
        entry_found(m, before, t),
{
    lemma_field_names();
    lemma_items();
    match m {
        AuthModel::Passkey { rp_id, user_handle, credential_id, cose_alg, private_key, public_key,
            user_name, display_name, sign_count, backup_eligible, backup_state } => {
            let u12 = t;
            let v11 = bool_item(backup_state) + u12;
            let u11 = text_item("backup_state"@) + v11;
            let v10 = bool_item(backup_eligible) + u11;
            let u10 = text_item("backup_eligible"@) + v10;
            let v9 = uint_item(sign_count as u64) + u10;
            let u9 = text_item("sign_count"@) + v9;
            let v8 = text_item(display_name) + u9;
            let u8 = text_item("display_name"@) + v8;
            let v7 = text_item(user_name) + u8;
            let u7 = text_item("user_name"@) + v7;
            let v6 = bytes_item(public_key@) + u7;
            let u6 = text_item("public_key"@) + v6;
            let v5 = bytes_item(private_key@) + u6;
            let u5 = text_item("private_key"@) + v5;
            let v4 = int_item(cose_alg) + u5;
            let u4 = text_item("cose_alg"@) + v4;
            let v3 = bytes_item(credential_id) + u4;
            let u3 = text_item("credential_id"@) + v3;
            let v2 = bytes_item(user_handle) + u3;
            let u2 = text_item("user_handle"@) + v2;
            let v1 = text_item(rp_id) + u2;
            let u1 = text_item("rp_id"@) + v1;
            let v0 = text_item("passkey"@) + u1;
            let u0 = text_item("method"@) + v0;
            let b = map_head(12) + u0;
            assert(b == auth_then(m, t));
            lemma_map(12, u0);
            lemma_head_len(5, 12);
            let f0 = no_fields();
            lemma_text_within("method"@, v0);
            lemma_text_within("passkey"@, u1);
            let f1 = FieldsModel { method: Some("passkey"@), ..f0 };
            assert(field_at(f0, u0) == Some((f1, u1)));
            lemma_text_within("rp_id"@, v1);
            lemma_text_within(rp_id, u2);
            assert(items_after(v1, 1) == items_after(u2, 0));
            assert(passed(v1) == Some(u2));
            let f2 = f1;
            assert(field_at(f1, u1) == Some((f2, u2)));
            lemma_text_within("user_handle"@, v2);
            lemma_bytes_within(user_handle, u3);
            assert(items_after(v2, 1) == items_after(u3, 0));
            assert(passed(v2) == Some(u3));
            let f3 = f2;
            assert(field_at(f2, u2) == Some((f3, u3)));
            lemma_text_within("credential_id"@, v3);
            lemma_bytes_within(credential_id, u4);
            assert(items_after(v3, 1) == items_after(u4, 0));
            assert(passed(v3) == Some(u4));
            let f4 = f3;
            assert(field_at(f3, u3) == Some((f4, u4)));
            lemma_text_within("cose_alg"@, v4);
            assert(items_after(v4, 1) == items_after(u5, 0));
            assert(passed(v4) == Some(u5));
            let f5 = f4;
            assert(field_at(f4, u4) == Some((f5, u5)));
            lemma_text_within("private_key"@, v5);
            lemma_bytes_within(private_key@, u6);
            assert(items_after(v5, 1) == items_after(u6, 0));
            assert(passed(v5) == Some(u6));
            let f6 = f5;
            assert(field_at(f5, u5) == Some((f6, u6)));
            lemma_text_within("public_key"@, v6);
            lemma_bytes_within(public_key@, u7);
            assert(items_after(v6, 1) == items_after(u7, 0));
            assert(passed(v6) == Some(u7));
            let f7 = f6;
            assert(field_at(f6, u6) == Some((f7, u7)));
            lemma_text_within("user_name"@, v7);
            lemma_text_within(user_name, u8);
            assert(items_after(v7, 1) == items_after(u8, 0));
            assert(passed(v7) == Some(u8));
            let f8 = f7;
            assert(field_at(f7, u7) == Some((f8, u8)));
            lemma_text_within("display_name"@, v8);
            lemma_text_within(display_name, u9);
            assert(items_after(v8, 1) == items_after(u9, 0));
            assert(passed(v8) == Some(u9));
            let f9 = f8;
            assert(field_at(f8, u8) == Some((f9, u9)));
            lemma_text_within("sign_count"@, v9);
            assert(items_after(v9, 1) == items_after(u10, 0));
            assert(passed(v9) == Some(u10));
            let f10 = f9;
            assert(field_at(f9, u9) == Some((f10, u10)));
            lemma_text_within("backup_eligible"@, v10);
            assert(items_after(v10, 1) == items_after(u11, 0));
            assert(passed(v10) == Some(u11));
            let f11 = f10;
            assert(field_at(f10, u10) == Some((f11, u11)));
            lemma_text_within("backup_state"@, v11);
            assert(items_after(v11, 1) == items_after(u12, 0));
            assert(passed(v11) == Some(u12));
            let f12 = f11;
            assert(field_at(f11, u11) == Some((f12, u12)));
            assert(fields_at(f0, u0, 12) == fields_at(f1, u1, 11));
            assert(fields_at(f1, u1, 11) == fields_at(f2, u2, 10));
            assert(fields_at(f2, u2, 10) == fields_at(f3, u3, 9));
            assert(fields_at(f3, u3, 9) == fields_at(f4, u4, 8));
            assert(fields_at(f4, u4, 8) == fields_at(f5, u5, 7));
            assert(fields_at(f5, u5, 7) == fields_at(f6, u6, 6));
            assert(fields_at(f6, u6, 6) == fields_at(f7, u7, 5));
            assert(fields_at(f7, u7, 5) == fields_at(f8, u8, 4));
            assert(fields_at(f8, u8, 4) == fields_at(f9, u9, 3));
            assert(fields_at(f9, u9, 3) == fields_at(f10, u10, 2));
            assert(fields_at(f10, u10, 2) == fields_at(f11, u11, 1));
            assert(fields_at(f11, u11, 1) == fields_at(f12, u12, 0));
        },
        _ => {},
    }
}

/// A written ssh entry is found.
#[verifier::rlimit(80)]
#[verifier::spinoff_prover]
proof fn lemma_ssh_entry(m: AuthModel, before: Found, t: Seq<u8>)
    requires
        m is Ssh,
        auth_then(m, t).len() <= u64::MAX,
    ensures
        entry_found(m, before, t),
{
    lemma_field_names();
    lemma_items();
    match m {
        AuthModel::Ssh { private_format, private_key, public_key, username, destination_refs,
            passphrase } => {
            let u7 = t;
            let v6 = optional_bytes_item(passphrase) + u7;
            let u6 = text_item("passphrase"@) + v6;
            let v5 = refs_then(destination_refs, u6);
            let u5 = text_item("destination_refs"@) + v5;
            let v4 = text_item(username) + u5;
            let u4 = text_item("username"@) + v4;
            let v3 = bytes_item(public_key) + u4;
            let u3 = text_item("public_key"@) + v3;
            let v2 = bytes_item(private_key) + u3;
            let u2 = text_item("private_key"@) + v2;
            let v1 = text_item(private_key_format_name(private_format)) + u2;
            let u1 = text_item("private_format"@) + v1;
            let v0 = text_item("ssh"@) + u1;
            let u0 = text_item("method"@) + v0;
            let b = map_head(7) + u0;
            assert(b == auth_then(m, t));
            lemma_map(7, u0);
            lemma_head_len(5, 7);
            let f0 = no_fields();
            lemma_text_within("method"@, v0);
            lemma_text_within("ssh"@, u1);
            let f1 = FieldsModel { method: Some("ssh"@), ..f0 };
            assert(field_at(f0, u0) == Some((f1, u1)));
            lemma_text_within("private_format"@, v1);
            lemma_text_within(private_key_format_name(private_format), u2);
            assert(items_after(v1, 1) == items_after(u2, 0));
            assert(passed(v1) == Some(u2));
            let f2 = f1;
            assert(field_at(f1, u1) == Some((f2, u2)));
            lemma_text_within("private_key"@, v2);
            lemma_bytes_within(private_key, u3);
            assert(items_after(v2, 1) == items_after(u3, 0));
            assert(passed(v2) == Some(u3));
            let f3 = f2;
            assert(field_at(f2, u2) == Some((f3, u3)));
            lemma_text_within("public_key"@, v3);
            lemma_bytes_within(public_key, u4);
            assert(items_after(v3, 1) == items_after(u4, 0));
            assert(passed(v3) == Some(u4));
            let f4 = f3;
            assert(field_at(f3, u3) == Some((f4, u4)));
            lemma_text_within("username"@, v4);
            lemma_text_within(username, u5);
            let f5 = FieldsModel { username: Some(username), ..f4 };
            assert(field_at(f4, u4) == Some((f5, u5)));
            lemma_text_within("destination_refs"@, v5);
            lemma_refs_item(destination_refs, u6);
            assert(passed(v5) == Some(u6));
            let f6 = f5;
            assert(field_at(f5, u5) == Some((f6, u6)));
            lemma_text_within("passphrase"@, v6);
            assert(items_after(v6, 1) == items_after(u7,
                0)) by { match passphrase { Some(x) => { assert(items_after(bytes_item(x) + u7, 1)
                == items_after(u7, 0)); }, None => { assert(items_after(null_item() + u7, 1)
                == items_after(u7, 0)); } } }
            assert(passed(v6) == Some(u7));
            let f7 = f6;
            assert(field_at(f6, u6) == Some((f7, u7)));
            assert(fields_at(f0, u0, 7) == fields_at(f1, u1, 6));
            assert(fields_at(f1, u1, 6) == fields_at(f2, u2, 5));
            assert(fields_at(f2, u2, 5) == fields_at(f3, u3, 4));
            assert(fields_at(f3, u3, 4) == fields_at(f4, u4, 3));
            assert(fields_at(f4, u4, 3) == fields_at(f5, u5, 2));
            assert(fields_at(f5, u5, 2) == fields_at(f6, u6, 1));
            assert(fields_at(f6, u6, 1) == fields_at(f7, u7, 0));
        },
        _ => {},
    }
}

/// A written token entry is found.
#[verifier::rlimit(80)]
#[verifier::spinoff_prover]
proof fn lemma_token_entry(m: AuthModel, before: Found, t: Seq<u8>)
    requires
        m is Token,
        auth_then(m, t).len() <= u64::MAX,
    ensures
        entry_found(m, before, t),
{
    lemma_field_names();
    lemma_items();
    match m {
        AuthModel::Token { secret, provider, profile_id, destination_refs, expires_at } => {
            let u6 = t;
            let v5 = optional_int_item(expires_at) + u6;
            let u5 = text_item("expires_at"@) + v5;
            let v4 = refs_then(destination_refs, u5);
            let u4 = text_item("destination_refs"@) + v4;
            let v3 = text_item(profile_id) + u4;
            let u3 = text_item("profile_id"@) + v3;
            let v2 = text_item(provider) + u3;
            let u2 = text_item("provider"@) + v2;
            let v1 = bytes_item(secret) + u2;
            let u1 = text_item("secret"@) + v1;
            let v0 = text_item("token"@) + u1;
            let u0 = text_item("method"@) + v0;
            let b = map_head(6) + u0;
            assert(b == auth_then(m, t));
            lemma_map(6, u0);
            lemma_head_len(5, 6);
            let f0 = no_fields();
            lemma_text_within("method"@, v0);
            lemma_text_within("token"@, u1);
            let f1 = FieldsModel { method: Some("token"@), ..f0 };
            assert(field_at(f0, u0) == Some((f1, u1)));
            lemma_text_within("secret"@, v1);
            lemma_bytes_within(secret, u2);
            let f2 = FieldsModel { secret: Some(secret), ..f1 };
            assert(field_at(f1, u1) == Some((f2, u2)));
            lemma_text_within("provider"@, v2);
            lemma_text_within(provider, u3);
            assert(items_after(v2, 1) == items_after(u3, 0));
            assert(passed(v2) == Some(u3));
            let f3 = f2;
            assert(field_at(f2, u2) == Some((f3, u3)));
            lemma_text_within("profile_id"@, v3);
            lemma_text_within(profile_id, u4);
            assert(items_after(v3, 1) == items_after(u4, 0));
            assert(passed(v3) == Some(u4));
            let f4 = f3;
            assert(field_at(f3, u3) == Some((f4, u4)));
            lemma_text_within("destination_refs"@, v4);
            lemma_refs_item(destination_refs, u5);
            assert(passed(v4) == Some(u5));
            let f5 = f4;
            assert(field_at(f4, u4) == Some((f5, u5)));
            lemma_text_within("expires_at"@, v5);
            assert(items_after(v5, 1) == items_after(u6,
                0)) by { match expires_at { Some(x) => { assert(items_after(int_item(x) + u6, 1)
                == items_after(u6, 0)); }, None => { assert(items_after(null_item() + u6, 1)
                == items_after(u6, 0)); } } }
            assert(passed(v5) == Some(u6));
            let f6 = f5;
            assert(field_at(f5, u5) == Some((f6, u6)));
            assert(fields_at(f0, u0, 6) == fields_at(f1, u1, 5));
            assert(fields_at(f1, u1, 5) == fields_at(f2, u2, 4));
            assert(fields_at(f2, u2, 4) == fields_at(f3, u3, 3));
            assert(fields_at(f3, u3, 3) == fields_at(f4, u4, 2));
            assert(fields_at(f4, u4, 2) == fields_at(f5, u5, 1));
            assert(fields_at(f5, u5, 1) == fields_at(f6, u6, 0));
        },
        _ => {},
    }
}

/// Whether a written entry followed by `t` is found after what was found
/// before.
spec fn entry_found(m: AuthModel, before: Found, t: Seq<u8>) -> bool {
    match take_map(auth_then(m, t)) {
        Some((n, b)) => match fields_at(no_fields(), b, n as nat) {
            Some((f, u)) => found_with(before, f) == Some(gathered(before, m)) && u == t && t.len()
                < auth_then(m, t).len(),
            None => false,
        },
        None => false,
    }
}

/// A written entry is found.
proof fn lemma_entry(m: AuthModel, before: Found, t: Seq<u8>)
    requires
        auth_then(m, t).len() <= u64::MAX,
    ensures
        entry_found(m, before, t),
{
    match m {
        AuthModel::Password { .. } => lemma_password_entry(m, before, t),
        AuthModel::Totp { .. } => lemma_totp_entry(m, before, t),
        AuthModel::Passkey { .. } => lemma_passkey_entry(m, before, t),
        AuthModel::Ssh { .. } => lemma_ssh_entry(m, before, t),
        AuthModel::Token { .. } => lemma_token_entry(m, before, t),
    }
}

/// Written entries are found.
proof fn lemma_entries(before: Found, v: Seq<AuthModel>, t: Seq<u8>)
    requires
        auths_tail(v, t).len() <= u64::MAX,
    ensures
        found_at(before, auths_tail(v, t), v.len()) == Some(gathered_all(before, v)),
        t.len() + v.len() <= auths_tail(v, t).len(),
    decreases v.len(),
{
    if v.len() > 0 {
        let u = auths_tail(v.skip(1), t);
        lemma_entry(v[0], before, u);
        lemma_entries(gathered(before, v[0]), v.skip(1), t);
    }
}

/// The material of stored ways to authenticate is their last password, with
/// their last one-time password where it is asked for.
pub proof fn lemma_password_material(v: Seq<AuthModel>, method: Seq<char>)
    requires
        auths_then(v, Seq::empty()).len() <= u64::MAX,
    ensures
        password_of(auths_then(v, Seq::empty()), method) == given(
            gathered_all(nothing(), v),
            method,
        ),
{
    let none = Seq::<u8>::empty();
    lemma_entries(nothing(), v, none);
    lemma_array(v.len() as u64, auths_tail(v, none));
}

/// What comes later in a list takes the place of what came before.
proof fn lemma_gathered_last(m: Found, v: Seq<AuthModel>, i: int)
    requires
        0 <= i < v.len(),
    ensures
        v[i] is Password && (forall|j: int|
            i < j < v.len() ==> !((#[trigger] v[j]) is Password)) ==> gathered_all(m, v).username
            == Some(v[i]->Password_username) && gathered_all(m, v).password == Some(
            v[i]->Password_password,
        ),
        v[i] is Totp && (forall|j: int| i < j < v.len() ==> !((#[trigger] v[j]) is Totp))
            ==> gathered_all(m, v).totp == Some(
            (
                v[i]->account,
                TotpLeaseModel {
                    secret: v[i]->Totp_secret,
                    algorithm: v[i]->algorithm,
                    digits: v[i]->digits,
                    period: v[i]->period,
                    t0: v[i]->t0,
                },
            ),
        ),
    decreases v.len(),
{
    let rest = v.skip(1);
    if i > 0 {
        assert(rest[i - 1] == v[i]);
        assert(forall|j: int| i - 1 < j < rest.len() ==> #[trigger] rest[j] == v[j + 1]);
        lemma_gathered_last(gathered(m, v[0]), rest, i - 1);
    } else {
        assert forall|j: int| 0 <= j < rest.len() implies #[trigger] rest[j] == v[j + 1] by {}
        lemma_gathered_kept(gathered(m, v[0]), rest);
    }
}

/// What a list does not hold is kept.
proof fn lemma_gathered_kept(m: Found, v: Seq<AuthModel>)
    ensures
        (forall|j: int| 0 <= j < v.len() ==> !((#[trigger] v[j]) is Password)) ==> gathered_all(
            m,
            v,
        ).username == m.username && gathered_all(m, v).password == m.password,
        (forall|j: int| 0 <= j < v.len() ==> !((#[trigger] v[j]) is Totp)) ==> gathered_all(
            m,
            v,
        ).totp == m.totp,
    decreases v.len(),
{
    if v.len() > 0 {
        let rest = v.skip(1);
        assert(forall|j: int| 0 <= j < rest.len() ==> #[trigger] rest[j] == v[j + 1]);
        lemma_gathered_kept(gathered(m, v[0]), rest);
        if forall|j: int| 0 <= j < v.len() ==> !((#[trigger] v[j]) is Password) {
            assert(!(v[0] is Password));
        }
        if forall|j: int| 0 <= j < v.len() ==> !((#[trigger] v[j]) is Totp) {
            assert(!(v[0] is Totp));
        }
    }
}

/// A provider is given the user name and the password of the record's password,
/// and no token; where it asks for a one-time password too, the seed and the
/// parameters of the record's own one, if it is for the same account.
pub proof fn lemma_password_given(v: Seq<AuthModel>, method: Seq<char>, i: int, k: int)
    requires
        auths_then(v, Seq::empty()).len() <= u64::MAX,
        0 <= i < v.len(),
        v[i] is Password,
        forall|j: int| i < j < v.len() ==> !((#[trigger] v[j]) is Password),
    ensures
        method != "password_totp"@ ==> password_of(auths_then(v, Seq::empty()), method) == Ok::<
            _,
            AttemptError,
        >(
            MaterialModel {
                username: v[i]->Password_username,
                password: v[i]->Password_password,
                subject_token: None,
                totp: None,
            },
        ),
        method == "password_totp"@ && 0 <= k < v.len() && v[k] is Totp && (forall|j: int|
            k < j < v.len() ==> !((#[trigger] v[j]) is Totp)) && v[k]->account
            == v[i]->Password_username ==> password_of(auths_then(v, Seq::empty()), method)
            == Ok::<_, AttemptError>(
            MaterialModel {
                username: v[i]->Password_username,
                password: v[i]->Password_password,
                subject_token: None,
                totp: Some(
                    TotpLeaseModel {
                        secret: v[k]->Totp_secret,
                        algorithm: v[k]->algorithm,
                        digits: v[k]->digits,
                        period: v[k]->period,
                        t0: v[k]->t0,
                    },
                ),
            },
        ),
        method == "password_totp"@ && 0 <= k < v.len() && v[k] is Totp && (forall|j: int|
            k < j < v.len() ==> !((#[trigger] v[j]) is Totp)) && v[k]->account
            != v[i]->Password_username ==> password_of(auths_then(v, Seq::empty()), method)
            == Err::<MaterialModel, _>(AttemptError::CredentialUnavailable),
        method == "password_totp"@ && (forall|j: int|
            0 <= j < v.len() ==> !((#[trigger] v[j]) is Totp)) ==> password_of(
            auths_then(v, Seq::empty()),
            method,
        ) == Err::<MaterialModel, _>(AttemptError::CredentialUnavailable),
{
    lemma_password_material(v, method);
    lemma_gathered_last(nothing(), v, i);
    if 0 <= k < v.len() {
        lemma_gathered_last(nothing(), v, k);
    }
    lemma_gathered_kept(nothing(), v);
}

/// A record without a password gives a provider nothing.
pub proof fn lemma_no_password(v: Seq<AuthModel>, method: Seq<char>)
    requires
        auths_then(v, Seq::empty()).len() <= u64::MAX,
        forall|j: int| 0 <= j < v.len() ==> !((#[trigger] v[j]) is Password),
    ensures
        password_of(auths_then(v, Seq::empty()), method) == Err::<MaterialModel, _>(
            AttemptError::CredentialUnavailable,
        ),
{
    lemma_password_material(v, method);
    lemma_gathered_kept(nothing(), v);
}

/// An exchangeable token: the token, the client that asks, its secret, where it
/// is exchanged and until when.
pub struct TokenGrant {
    pub subject_token: Seq<u8>,
    pub client: Seq<char>,
    pub client_secret: Seq<u8>,
    pub profile: Seq<char>,
    pub refs: Seq<u16>,
    pub expires: Option<i64>,
}

/// The bytes of an exchangeable token.
pub open spec fn token_grant_bytes(g: TokenGrant) -> Seq<u8> {
    array_head(1) + (map_head(8) + (text_item("method"@) + (text_item("token_exchange"@)
        + (text_item("subject_token"@) + (bytes_item(g.subject_token)
        + (text_item("requester_client_id"@) + (text_item(g.client)
        + (text_item("requester_client_secret"@) + (bytes_item(g.client_secret)
        + (text_item("provider"@) + (text_item("keycloak"@) + (text_item("profile_id"@)
        + (text_item(g.profile) + (text_item("destination_refs"@)
        + (refs_then(g.refs, text_item("expires_at"@) + (optional_int_item(g.expires)
        + Seq::empty())))))))))))))))))
}

/// References are passed over.
proof fn lemma_refs_passed(v: Seq<u16>, t: Seq<u8>)
    requires
        refs_tail(v, t).len() <= u64::MAX,
    ensures
        indices_after(refs_tail(v, t), v.len()) == Some(t),
        v.len() + t.len() <= refs_tail(v, t).len(),
    decreases v.len(),
{
    if v.len() > 0 {
        let u = refs_tail(v.skip(1), t);
        assert(refs_tail(v, t) == uint_item(v[0] as u64) + u);
        lemma_uint(v[0] as u64, u);
        lemma_head_len(0, v[0] as u64);
        lemma_refs_passed(v.skip(1), t);
    }
}

/// A provider that exchanges tokens is given the token, the client's name and
/// the client's secret, each as it stands in the record, where the record is for
/// the destination, none of the two secrets is empty and it has not expired.
pub proof fn lemma_token_given(g: TokenGrant, destination: Seq<char>, now: i64)
    requires
        token_grant_bytes(g).len() <= u64::MAX,
    ensures
        destination != g.profile ==> token_of(token_grant_bytes(g), destination, now) == Err::<
            MaterialModel,
            _,
        >(AttemptError::Integrity),
        destination == g.profile ==> token_of(token_grant_bytes(g), destination, now) == (if (
        g.expires matches Some(at) ==> now < at) && g.subject_token.len() > 0
            && g.client_secret.len() > 0 {
            Ok::<MaterialModel, AttemptError>(
                MaterialModel {
                    username: g.client,
                    password: g.client_secret,
                    subject_token: Some(g.subject_token),
                    totp: None,
                },
            )
        } else {
            Err(AttemptError::CredentialUnavailable)
        }),
{
    let end = Seq::<u8>::empty();
    let t15 = optional_int_item(g.expires) + end;
    let t14 = text_item("expires_at"@) + t15;
    let t13 = refs_then(g.refs, t14);
    let t12 = text_item("destination_refs"@) + t13;
    let t11 = text_item(g.profile) + t12;
    let t10 = text_item("profile_id"@) + t11;
    let t9 = text_item("keycloak"@) + t10;
    let t8 = text_item("provider"@) + t9;
    let t7 = bytes_item(g.client_secret) + t8;
    let t6 = text_item("requester_client_secret"@) + t7;
    let t5 = text_item(g.client) + t6;
    let t4 = text_item("requester_client_id"@) + t5;
    let t3 = bytes_item(g.subject_token) + t4;
    let t2 = text_item("subject_token"@) + t3;
    let t1 = text_item("token_exchange"@) + t2;
    let t0 = text_item("method"@) + t1;
    let b = map_head(8) + t0;
    assert(token_grant_bytes(g) == array_head(1) + b);
    lemma_array(1, b);
    lemma_map(8, t0);
    lemma_text_within("method"@, t1);
    lemma_text_within("token_exchange"@, t2);
    lemma_text_within("subject_token"@, t3);
    lemma_bytes_within(g.subject_token, t4);
    lemma_text_within("requester_client_id"@, t5);
    lemma_text_within(g.client, t6);
    lemma_text_within("requester_client_secret"@, t7);
    lemma_bytes_within(g.client_secret, t8);
    lemma_text_within("provider"@, t9);
    lemma_text_within("keycloak"@, t10);
    lemma_text_within("profile_id"@, t11);
    lemma_text_within(g.profile, t12);
    if destination == g.profile {
        lemma_text_within("destination_refs"@, t13);
        let tail = refs_tail(g.refs, t14);
        lemma_refs_passed(g.refs, t14);
        lemma_array(g.refs.len() as u64, tail);
        lemma_text_within("expires_at"@, t15);
        match g.expires {
            Some(n) => {
                lemma_int(n, end);
            },
            None => lemma_null(end),
        }
        assert(instant_at(t15) == Some((g.expires, end)));
    }
}

/// Where the material comes from: none is given to one who only reconciles, a
/// token to a provider that exchanges tokens, and a password to any other.
pub proof fn lemma_material(
    integration: Seq<char>,
    auth: Seq<u8>,
    destination: Seq<char>,
    method: Seq<char>,
    now: i64,
)
    ensures
        ({
            let r = material_of(true, integration, auth, destination, method, now);
            &&& r is Ok
            &&& (r->Ok_0).username.len() == 0
            &&& (r->Ok_0).password.len() == 0
            &&& (r->Ok_0).subject_token is None
            &&& (r->Ok_0).totp is None
        }),
        integration == "keycloak-token-exchange"@ ==> material_of(
            false,
            integration,
            auth,
            destination,
            method,
            now,
        ) == token_of(auth, destination, now),
        integration != "keycloak-token-exchange"@ ==> material_of(
            false,
            integration,
            auth,
            destination,
            method,
            now,
        ) == password_of(auth, method),
{
}

} // verus!
