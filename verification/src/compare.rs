//! Comparison of logical records.
use crate::bytes::{same, same_str};
use crate::content::{
    Attachment, AuthRecord, CustomField, Destination, HumanMetadata, LogicalRecord, LogicalValue,
    SourceField,
};
use crate::ordered::same_array;
use crate::views::views;
use vstd::prelude::*;

verus! {

/// Whether two lists of indices are the same.
fn same_refs(a: &Vec<u16>, b: &Vec<u16>) -> (r: bool)
    ensures
        r == (a@ == b@),
{
    if a.len() != b.len() {
        return false;
    }
    let mut i: usize = 0;
    while i < a.len()
        invariant
            i <= a@.len(),
            a@.len() == b@.len(),
            forall|j: int| 0 <= j < i ==> a@[j] == b@[j],
        decreases a@.len() - i,
    {
        if a[i] != b[i] {
            return false;
        }
        i += 1;
    }
    assert(a@ =~= b@);
    true
}

/// Whether two lists of texts are the same.
pub fn same_texts(a: &[String], b: &[String]) -> (r: bool)
    ensures
        r == (views(a@) == views(b@)),
{
    if a.len() != b.len() {
        assert(views(a@).len() != views(b@).len());
        return false;
    }
    let mut i: usize = 0;
    while i < a.len()
        invariant
            i <= a@.len(),
            a@.len() == b@.len(),
            forall|j: int| 0 <= j < i ==> (#[trigger] a@[j])@ == b@[j]@,
        decreases a@.len() - i,
    {
        if !same_str(a[i].as_str(), b[i].as_str()) {
            assert(views(a@)[i as int] != views(b@)[i as int]);
            return false;
        }
        i += 1;
    }
    assert(views(a@) =~= views(b@));
    true
}

/// Whether two destinations are the same.
fn same_destination(a: &Destination, b: &Destination) -> (r: bool)
    ensures
        r == (a@ == b@),
{
    same_str(a.label.as_str(), b.label.as_str()) && same_str(a.value.as_str(), b.value.as_str())
}

/// Whether two lists of destinations are the same.
pub fn same_destinations(a: &[Destination], b: &[Destination]) -> (r: bool)
    ensures
        r == (views(a@) == views(b@)),
{
    if a.len() != b.len() {
        assert(views(a@).len() != views(b@).len());
        return false;
    }
    let mut i: usize = 0;
    while i < a.len()
        invariant
            i <= a@.len(),
            a@.len() == b@.len(),
            forall|j: int| 0 <= j < i ==> (#[trigger] a@[j])@ == b@[j]@,
        decreases a@.len() - i,
    {
        if !same_destination(&a[i], &b[i]) {
            assert(views(a@)[i as int] != views(b@)[i as int]);
            return false;
        }
        i += 1;
    }
    assert(views(a@) =~= views(b@));
    true
}

/// Whether two values are the same.
fn same_value(a: &LogicalValue, b: &LogicalValue) -> (r: bool)
    ensures
        r == (a@ == b@),
{
    match (a, b) {
        (LogicalValue::Text(x), LogicalValue::Text(y)) => same_str(x.as_str(), y.as_str()),
        (LogicalValue::Bytes(x), LogicalValue::Bytes(y)) => same(x.as_slice(), y.as_slice()),
        _ => false,
    }
}

/// Whether two custom fields are the same.
fn same_field(a: &CustomField, b: &CustomField) -> (r: bool)
    ensures
        r == (a@ == b@),
{
    same_array(&a.id, &b.id) && same_str(a.label.as_str(), b.label.as_str()) && same_value(
        &a.value,
        &b.value,
    ) && a.concealed == b.concealed
}

/// Whether two lists of custom fields are the same.
pub fn same_fields(a: &[CustomField], b: &[CustomField]) -> (r: bool)
    ensures
        r == (views(a@) == views(b@)),
{
    if a.len() != b.len() {
        assert(views(a@).len() != views(b@).len());
        return false;
    }
    let mut i: usize = 0;
    while i < a.len()
        invariant
            i <= a@.len(),
            a@.len() == b@.len(),
            forall|j: int| 0 <= j < i ==> (#[trigger] a@[j])@ == b@[j]@,
        decreases a@.len() - i,
    {
        if !same_field(&a[i], &b[i]) {
            assert(views(a@)[i as int] != views(b@)[i as int]);
            return false;
        }
        i += 1;
    }
    assert(views(a@) =~= views(b@));
    true
}

/// Whether two source fields are the same.
fn same_source_field(a: &SourceField, b: &SourceField) -> (r: bool)
    ensures
        r == (a@ == b@),
{
    same_str(a.path.as_str(), b.path.as_str()) && a.encoding == b.encoding && same(
        a.value.as_slice(),
        b.value.as_slice(),
    )
}

/// Whether two lists of source fields are the same.
pub fn same_source_fields(a: &[SourceField], b: &[SourceField]) -> (r: bool)
    ensures
        r == (views(a@) == views(b@)),
{
    if a.len() != b.len() {
        assert(views(a@).len() != views(b@).len());
        return false;
    }
    let mut i: usize = 0;
    while i < a.len()
        invariant
            i <= a@.len(),
            a@.len() == b@.len(),
            forall|j: int| 0 <= j < i ==> (#[trigger] a@[j])@ == b@[j]@,
        decreases a@.len() - i,
    {
        if !same_source_field(&a[i], &b[i]) {
            assert(views(a@)[i as int] != views(b@)[i as int]);
            return false;
        }
        i += 1;
    }
    assert(views(a@) =~= views(b@));
    true
}

/// Whether two records show the owner the same.
fn same_human(a: &HumanMetadata, b: &HumanMetadata) -> (r: bool)
    ensures
        r == (a@ == b@),
{
    same_str(a.title.as_str(), b.title.as_str()) && same_destinations(
        a.destinations.as_slice(),
        b.destinations.as_slice(),
    ) && same_texts(a.tags.as_slice(), b.tags.as_slice()) && a.favorite == b.favorite && same_str(
        a.notes.as_str(),
        b.notes.as_str(),
    ) && same_fields(a.fields.as_slice(), b.fields.as_slice()) && same_source_fields(
        a.source_fields.as_slice(),
        b.source_fields.as_slice(),
    )
}

/// Whether two optional byte strings are the same.
fn same_optional(a: &Option<Vec<u8>>, b: &Option<Vec<u8>>) -> (r: bool)
    ensures
        r == (crate::content::opt_vec(*a) == crate::content::opt_vec(*b)),
{
    match (a, b) {
        (Some(x), Some(y)) => same(x.as_slice(), y.as_slice()),
        (None, None) => true,
        _ => false,
    }
}

/// Whether two ways to authenticate are the same.
fn same_auth(a: &AuthRecord, b: &AuthRecord) -> (r: bool)
    ensures
        r == (a@ == b@),
{
    match (a, b) {
        (AuthRecord::Password { username: username_a, password: password_a,
            destination_refs: destination_refs_a },
            AuthRecord::Password { username: username_b, password: password_b,
            destination_refs: destination_refs_b }) => same_str(username_a.as_str(),
            username_b.as_str()) && same(password_a.as_slice(), password_b.as_slice())
            && same_refs(destination_refs_a, destination_refs_b),
        (AuthRecord::Totp { secret: secret_a, algorithm: algorithm_a, digits: digits_a,
            period: period_a, t0: t0_a, issuer: issuer_a, account: account_a,
            destination_refs: destination_refs_a },
            AuthRecord::Totp { secret: secret_b, algorithm: algorithm_b, digits: digits_b,
            period: period_b, t0: t0_b, issuer: issuer_b, account: account_b,
            destination_refs: destination_refs_b }) => same(secret_a.as_slice(),
            secret_b.as_slice()) && *algorithm_a == *algorithm_b && *digits_a == *digits_b
            && *period_a == *period_b && *t0_a == *t0_b
            && same_str(issuer_a.as_str(), issuer_b.as_str())
            && same_str(account_a.as_str(), account_b.as_str())
            && same_refs(destination_refs_a, destination_refs_b),
        (AuthRecord::Passkey { rp_id: rp_id_a, user_handle: user_handle_a,
            credential_id: credential_id_a, cose_alg: cose_alg_a, private_key: private_key_a,
            public_key: public_key_a, user_name: user_name_a, display_name: display_name_a,
            sign_count: sign_count_a, backup_eligible: backup_eligible_a,
            backup_state: backup_state_a }, AuthRecord::Passkey { rp_id: rp_id_b,
            user_handle: user_handle_b, credential_id: credential_id_b, cose_alg: cose_alg_b,
            private_key: private_key_b, public_key: public_key_b, user_name: user_name_b,
            display_name: display_name_b, sign_count: sign_count_b,
            backup_eligible: backup_eligible_b,
            backup_state: backup_state_b }) => same_str(rp_id_a.as_str(), rp_id_b.as_str())
            && same(user_handle_a.as_slice(), user_handle_b.as_slice())
            && same(credential_id_a.as_slice(), credential_id_b.as_slice())
            && *cose_alg_a == *cose_alg_b && same_array(private_key_a, private_key_b)
            && same_array(public_key_a, public_key_b)
            && same_str(user_name_a.as_str(), user_name_b.as_str())
            && same_str(display_name_a.as_str(), display_name_b.as_str())
            && *sign_count_a == *sign_count_b && *backup_eligible_a == *backup_eligible_b
            && *backup_state_a == *backup_state_b,
        (AuthRecord::Ssh { private_format: private_format_a, private_key: private_key_a,
            public_key: public_key_a, username: username_a, destination_refs: destination_refs_a,
            passphrase: passphrase_a }, AuthRecord::Ssh { private_format: private_format_b,
            private_key: private_key_b, public_key: public_key_b, username: username_b,
            destination_refs: destination_refs_b, passphrase: passphrase_b }) => *private_format_a
            == *private_format_b && same(private_key_a.as_slice(), private_key_b.as_slice())
            && same(public_key_a.as_slice(), public_key_b.as_slice())
            && same_str(username_a.as_str(), username_b.as_str())
            && same_refs(destination_refs_a, destination_refs_b)
            && same_optional(passphrase_a, passphrase_b),
        (AuthRecord::Token { secret: secret_a, provider: provider_a, profile_id: profile_id_a,
            destination_refs: destination_refs_a, expires_at: expires_at_a },
            AuthRecord::Token { secret: secret_b, provider: provider_b, profile_id: profile_id_b,
            destination_refs: destination_refs_b,
            expires_at: expires_at_b }) => same(secret_a.as_slice(), secret_b.as_slice())
            && same_str(provider_a.as_str(), provider_b.as_str())
            && same_str(profile_id_a.as_str(), profile_id_b.as_str())
            && same_refs(destination_refs_a, destination_refs_b) && *expires_at_a == *expires_at_b,
        _ => false,
    }
}

/// Whether two lists of ways to authenticate are the same.
pub fn same_auths(a: &[AuthRecord], b: &[AuthRecord]) -> (r: bool)
    ensures
        r == (views(a@) == views(b@)),
{
    if a.len() != b.len() {
        assert(views(a@).len() != views(b@).len());
        return false;
    }
    let mut i: usize = 0;
    while i < a.len()
        invariant
            i <= a@.len(),
            a@.len() == b@.len(),
            forall|j: int| 0 <= j < i ==> (#[trigger] a@[j])@ == b@[j]@,
        decreases a@.len() - i,
    {
        if !same_auth(&a[i], &b[i]) {
            assert(views(a@)[i as int] != views(b@)[i as int]);
            return false;
        }
        i += 1;
    }
    assert(views(a@) =~= views(b@));
    true
}

/// Whether two files are the same.
fn same_attachment(a: &Attachment, b: &Attachment) -> (r: bool)
    ensures
        r == (a@ == b@),
{
    same_array(a.id(), b.id()) && same_str(a.name(), b.name()) && same_str(a.mime(), b.mime())
        && a.size() == b.size() && same_array(a.sha256(), b.sha256()) && same(
        a.content(),
        b.content(),
    )
}

/// Whether two lists of files are the same.
pub fn same_attachments(a: &[Attachment], b: &[Attachment]) -> (r: bool)
    ensures
        r == (views(a@) == views(b@)),
{
    if a.len() != b.len() {
        assert(views(a@).len() != views(b@).len());
        return false;
    }
    let mut i: usize = 0;
    while i < a.len()
        invariant
            i <= a@.len(),
            a@.len() == b@.len(),
            forall|j: int| 0 <= j < i ==> (#[trigger] a@[j])@ == b@[j]@,
        decreases a@.len() - i,
    {
        if !same_attachment(&a[i], &b[i]) {
            assert(views(a@)[i as int] != views(b@)[i as int]);
            return false;
        }
        i += 1;
    }
    assert(views(a@) =~= views(b@));
    true
}

/// Whether two records are the same in every part.
pub fn same_record(a: &LogicalRecord, b: &LogicalRecord) -> (r: bool)
    ensures
        r == (a@ == b@),
{
    a.kind() == b.kind() && same_human(a.human(), b.human()) && same_auths(a.auth(), b.auth())
        && same_attachments(a.attachments(), b.attachments())
}

} // verus!
