-- The tables of an empty vault.
CREATE TABLE vault_metadata (
  singleton INTEGER PRIMARY KEY CHECK (singleton = 1),
  format_version INTEGER NOT NULL,
  suite INTEGER NOT NULL,
  vault_id BLOB NOT NULL CHECK (length(vault_id) = 16),
  authority_epoch INTEGER NOT NULL,
  human_public_key BLOB NOT NULL CHECK (length(human_public_key) = 32)
) STRICT;
CREATE TABLE encrypted_objects (
  kind TEXT PRIMARY KEY,
  value BLOB NOT NULL CHECK (length(value) BETWEEN 1 AND 16777216)
) STRICT;
CREATE TABLE vault_items (
  item_id BLOB PRIMARY KEY CHECK (length(item_id) = 16),
  visible_revision BLOB NOT NULL CHECK (length(visible_revision) = 16),
  kind TEXT NOT NULL CHECK (kind IN ('password','totp','passkey','ssh','token','note','file')),
  status TEXT NOT NULL CHECK (status IN ('active', 'trash'))
) STRICT;
CREATE TABLE revision_parts (
  revision_id BLOB PRIMARY KEY CHECK (length(revision_id) = 16),
  item_id BLOB NOT NULL CHECK (length(item_id) = 16),
  package BLOB NOT NULL CHECK (length(package) BETWEEN 1 AND 16777216)
) STRICT;
CREATE TABLE attachment_parts (
  attachment_id BLOB NOT NULL CHECK (length(attachment_id) = 16),
  revision_id BLOB NOT NULL CHECK (length(revision_id) = 16),
  package BLOB NOT NULL CHECK (length(package) BETWEEN 1 AND 17825792),
  PRIMARY KEY (attachment_id, revision_id)
) STRICT;
CREATE TABLE attachment_streams (
  attachment_id BLOB NOT NULL CHECK (length(attachment_id) = 16), revision_id BLOB NOT NULL CHECK (length(revision_id) = 16),
  header BLOB NOT NULL CHECK (length(header) BETWEEN 1 AND 16384), chunk_count INTEGER NOT NULL CHECK (chunk_count > 0),
  PRIMARY KEY (attachment_id, revision_id)
) STRICT;
CREATE TABLE attachment_stream_chunks (
  attachment_id BLOB NOT NULL CHECK (length(attachment_id) = 16), revision_id BLOB NOT NULL CHECK (length(revision_id) = 16),
  chunk_index INTEGER NOT NULL CHECK (chunk_index >= 0), ciphertext BLOB NOT NULL CHECK (length(ciphertext) BETWEEN 21 AND 1048597),
  PRIMARY KEY (attachment_id, revision_id, chunk_index)
) STRICT;
CREATE TABLE purged_items (
  item_id BLOB PRIMARY KEY CHECK (length(item_id) = 16),
  purge_event_digest BLOB NOT NULL CHECK (length(purge_event_digest) = 32),
  revision_count INTEGER NOT NULL CHECK (revision_count >= 0),
  attachment_count INTEGER NOT NULL CHECK (attachment_count >= 0),
  encrypted_bytes INTEGER NOT NULL CHECK (encrypted_bytes >= 0)
) STRICT;
CREATE TABLE purged_revisions (
  revision_id BLOB PRIMARY KEY CHECK (length(revision_id) = 16),
  item_id BLOB NOT NULL CHECK (length(item_id) = 16),
  purge_event_digest BLOB NOT NULL CHECK (length(purge_event_digest) = 32)
) STRICT;
CREATE TRIGGER reject_purged_item_revision BEFORE INSERT ON revision_parts
WHEN EXISTS(SELECT 1 FROM purged_items WHERE item_id=NEW.item_id)
BEGIN SELECT RAISE(ABORT,'purged item is terminal'); END;
CREATE TRIGGER reject_purged_revision BEFORE INSERT ON revision_parts
WHEN EXISTS(SELECT 1 FROM purged_revisions WHERE revision_id=NEW.revision_id)
BEGIN SELECT RAISE(ABORT,'purged revision is terminal'); END;
CREATE TRIGGER reject_purged_item BEFORE INSERT ON vault_items
WHEN EXISTS(SELECT 1 FROM purged_items WHERE item_id=NEW.item_id)
BEGIN SELECT RAISE(ABORT,'purged item is terminal'); END;
CREATE TABLE authority_events (
  event_digest BLOB PRIMARY KEY CHECK (length(event_digest) = 32),
  event_id BLOB NOT NULL UNIQUE CHECK (length(event_id) = 16),
  transaction_id BLOB NOT NULL UNIQUE CHECK (length(transaction_id) = 16),
  issuer_device BLOB NOT NULL CHECK (length(issuer_device) = 16),
  issuer_generation INTEGER NOT NULL CHECK (issuer_generation > 0),
  seq INTEGER NOT NULL CHECK (seq > 0),
  previous_digest BLOB CHECK (previous_digest IS NULL OR length(previous_digest) = 32),
  parents BLOB NOT NULL CHECK (length(parents) BETWEEN 1 AND 262144),
  kind TEXT NOT NULL,
  subject BLOB NOT NULL CHECK (length(subject) = 16),
  subject_generation INTEGER NOT NULL CHECK (subject_generation > 0),
  event BLOB NOT NULL CHECK (length(event) BETWEEN 1 AND 262144),
  human_signature BLOB CHECK (human_signature IS NULL OR length(human_signature) = 64),
  device_signature BLOB NOT NULL CHECK (length(device_signature) = 64)
) STRICT;
CREATE INDEX authority_event_slot ON authority_events(issuer_device,issuer_generation,seq);
CREATE TABLE outbox (
  event_digest BLOB PRIMARY KEY CHECK (length(event_digest) = 32),
  event BLOB NOT NULL CHECK (length(event) BETWEEN 1 AND 262144)
) STRICT;
CREATE TABLE human_challenges (
  challenge BLOB PRIMARY KEY CHECK (length(challenge) = 32),
  transaction_id BLOB NOT NULL UNIQUE CHECK (length(transaction_id) = 16),
  command BLOB NOT NULL CHECK (length(command) BETWEEN 1 AND 262144),
  body_hash BLOB NOT NULL CHECK (length(body_hash) = 32),
  expected_state BLOB NOT NULL CHECK (length(expected_state) = 32),
  expires_at_us INTEGER NOT NULL,
  consumed INTEGER NOT NULL DEFAULT 0 CHECK (consumed IN (0, 1))
) STRICT;
CREATE TABLE human_staging (
  transaction_id BLOB PRIMARY KEY CHECK (length(transaction_id) = 16),
  operation TEXT NOT NULL CHECK (operation IN ('item_write', 'item_lifecycle', 'history_restore', 'item_purge', 'audit_purge', 'availability_change', 'identity_change', 'import_commit', 'backup_restore', 'root_rotation')),
  event_kind TEXT NOT NULL CHECK (event_kind IN ('item-revision', 'trash', 'restore', 'purge-item', 'purge-revisions', 'audit-purge', 'agent-grant', 'agent-revoke', 'enable', 'disable', 'suspend', 'resume', 'device-retire', 'import-batch', 'backup-restore', 'root-password-rotate', 'root-recovery-rotate')),
  item_id BLOB NOT NULL CHECK (length(item_id) = 16),
  revision_id BLOB CHECK (revision_id IS NULL OR length(revision_id) = 16),
  body BLOB NOT NULL CHECK (length(body) BETWEEN 1 AND 262144),
  package BLOB CHECK (package IS NULL OR length(package) BETWEEN 1 AND 16777216),
  item_kind TEXT CHECK (item_kind IS NULL OR item_kind IN ('password','totp','passkey','ssh','token','note','file')),
  attachments BLOB CHECK (attachments IS NULL OR length(attachments) BETWEEN 1 AND 18874368),
  audit_generation INTEGER CHECK (audit_generation IS NULL OR audit_generation > 0),
  audit_through_seq INTEGER CHECK (audit_through_seq IS NULL OR audit_through_seq > 0),
  subject_generation INTEGER CHECK (subject_generation IS NULL OR subject_generation > 0),
  authority_body BLOB CHECK (authority_body IS NULL OR length(authority_body) BETWEEN 1 AND 262144),
  staged_grant BLOB CHECK (staged_grant IS NULL OR length(staged_grant) BETWEEN 1 AND 16777216)
) STRICT;
CREATE TABLE human_staging_streams (
  transaction_id BLOB NOT NULL CHECK (length(transaction_id) = 16), attachment_id BLOB NOT NULL CHECK (length(attachment_id) = 16),
  header BLOB NOT NULL CHECK (length(header) BETWEEN 1 AND 16384), chunk_count INTEGER NOT NULL CHECK (chunk_count > 0),
  PRIMARY KEY (transaction_id, attachment_id)
) STRICT;
CREATE TABLE human_staging_stream_chunks (
  transaction_id BLOB NOT NULL CHECK (length(transaction_id) = 16), attachment_id BLOB NOT NULL CHECK (length(attachment_id) = 16),
  chunk_index INTEGER NOT NULL CHECK (chunk_index >= 0), ciphertext BLOB NOT NULL CHECK (length(ciphertext) BETWEEN 21 AND 1048597),
  PRIMARY KEY (transaction_id, attachment_id, chunk_index)
) STRICT;
CREATE TABLE import_staging_batches (
  transaction_id BLOB PRIMARY KEY CHECK (length(transaction_id) = 16),
  batch_id BLOB NOT NULL UNIQUE CHECK (length(batch_id) = 16),
  source TEXT NOT NULL CHECK (source IN ('chrome','apple','mappable','1pux')),
  object_digest BLOB NOT NULL CHECK (length(object_digest) = 32),
  total INTEGER NOT NULL CHECK (total >= 0),
  new_items INTEGER NOT NULL CHECK (new_items >= 0),
  replaced INTEGER NOT NULL CHECK (replaced >= 0),
  skipped_exact INTEGER NOT NULL CHECK (skipped_exact >= 0),
  excluded INTEGER NOT NULL CHECK (excluded >= 0),
  preserved_fields INTEGER NOT NULL CHECK (preserved_fields >= 0),
  event_pages INTEGER NOT NULL CHECK (event_pages > 0)
) STRICT;
CREATE TABLE import_staging_items (
  transaction_id BLOB NOT NULL CHECK (length(transaction_id) = 16),
  ordinal INTEGER NOT NULL CHECK (ordinal > 0),
  item_id BLOB NOT NULL CHECK (length(item_id) = 16),
  revision_id BLOB NOT NULL CHECK (length(revision_id) = 16),
  item_kind TEXT NOT NULL CHECK (item_kind IN ('password','totp','ssh','token','note','file')),
  package BLOB NOT NULL CHECK (length(package) BETWEEN 1 AND 16777216),
  replacement INTEGER NOT NULL CHECK (replacement IN (0,1)),
  PRIMARY KEY (transaction_id, ordinal),
  UNIQUE (transaction_id, item_id)
) STRICT;
CREATE TABLE import_staging_streams (
  transaction_id BLOB NOT NULL CHECK (length(transaction_id) = 16),
  ordinal INTEGER NOT NULL CHECK (ordinal > 0),
  attachment_id BLOB NOT NULL CHECK (length(attachment_id) = 16),
  header BLOB NOT NULL CHECK (length(header) BETWEEN 1 AND 16384),
  chunk_count INTEGER NOT NULL CHECK (chunk_count > 0),
  PRIMARY KEY (transaction_id,ordinal,attachment_id)
) STRICT;
CREATE TABLE import_staging_stream_chunks (
  transaction_id BLOB NOT NULL CHECK (length(transaction_id) = 16),
  ordinal INTEGER NOT NULL CHECK (ordinal > 0),
  attachment_id BLOB NOT NULL CHECK (length(attachment_id) = 16),
  chunk_index INTEGER NOT NULL CHECK (chunk_index >= 0),
  ciphertext BLOB NOT NULL CHECK (length(ciphertext) BETWEEN 21 AND 1048597),
  PRIMARY KEY (transaction_id,ordinal,attachment_id,chunk_index)
) STRICT;
CREATE TABLE import_reports (
  batch_id BLOB PRIMARY KEY CHECK (length(batch_id) = 16),
  transaction_id BLOB NOT NULL UNIQUE CHECK (length(transaction_id) = 16),
  source TEXT NOT NULL CHECK (source IN ('chrome','apple','mappable','1pux')),
  total INTEGER NOT NULL CHECK (total >= 0),
  new_items INTEGER NOT NULL CHECK (new_items >= 0),
  replaced INTEGER NOT NULL CHECK (replaced >= 0),
  skipped_exact INTEGER NOT NULL CHECK (skipped_exact >= 0),
  excluded INTEGER NOT NULL CHECK (excluded >= 0),
  preserved_fields INTEGER NOT NULL CHECK (preserved_fields >= 0),
  event_pages INTEGER NOT NULL CHECK (event_pages > 0),
  committed_at_us INTEGER NOT NULL
) STRICT;
CREATE TABLE backup_restore_batches (
  transaction_id BLOB PRIMARY KEY CHECK(length(transaction_id)=16),
  backup_id BLOB NOT NULL CHECK(length(backup_id)=16),
  source_vault BLOB NOT NULL CHECK(length(source_vault)=16),
  object_digest BLOB NOT NULL CHECK(length(object_digest)=32),
  item_count INTEGER NOT NULL CHECK(item_count>=0),
  revision_count INTEGER NOT NULL CHECK(revision_count>=0),
  attachment_count INTEGER NOT NULL CHECK(attachment_count>=0),
  attachment_bytes INTEGER NOT NULL CHECK(attachment_bytes>=0),
  audit_bundles INTEGER NOT NULL CHECK(audit_bundles>=0),
  authority_events INTEGER NOT NULL CHECK(authority_events>=0),
  identity_metadata INTEGER NOT NULL CHECK(identity_metadata>=0)
) STRICT;
CREATE TABLE backup_restore_items (
  transaction_id BLOB NOT NULL CHECK(length(transaction_id)=16),
  source_item BLOB NOT NULL CHECK(length(source_item)=16),
  target_item BLOB NOT NULL CHECK(length(target_item)=16),
  source_visible_revision BLOB NOT NULL CHECK(length(source_visible_revision)=16),
  target_visible_revision BLOB CHECK(target_visible_revision IS NULL OR length(target_visible_revision)=16),
  item_kind TEXT NOT NULL CHECK(item_kind IN ('password','totp','passkey','ssh','token','note','file')),
  status TEXT NOT NULL CHECK(status IN ('active','trash')),
  PRIMARY KEY(transaction_id,source_item), UNIQUE(transaction_id,target_item)
) STRICT;
CREATE TABLE backup_restore_revisions (
  transaction_id BLOB NOT NULL CHECK(length(transaction_id)=16),
  source_revision BLOB NOT NULL CHECK(length(source_revision)=16),
  target_revision BLOB NOT NULL CHECK(length(target_revision)=16),
  target_item BLOB NOT NULL CHECK(length(target_item)=16),
  modified_at_us INTEGER NOT NULL,
  item_kind TEXT NOT NULL CHECK(item_kind IN ('password','totp','passkey','ssh','token','note','file')),
  package BLOB NOT NULL CHECK(length(package) BETWEEN 1 AND 16777216),
  object_digest BLOB NOT NULL CHECK(length(object_digest)=32),
  PRIMARY KEY(transaction_id,source_revision), UNIQUE(transaction_id,target_revision)
) STRICT;
CREATE TABLE backup_restore_streams (
  transaction_id BLOB NOT NULL CHECK(length(transaction_id)=16),
  source_revision BLOB NOT NULL CHECK(length(source_revision)=16),
  source_attachment BLOB NOT NULL CHECK(length(source_attachment)=16),
  target_revision BLOB NOT NULL CHECK(length(target_revision)=16),
  target_attachment BLOB NOT NULL CHECK(length(target_attachment)=16),
  header BLOB NOT NULL CHECK(length(header) BETWEEN 1 AND 16384),
  chunk_count INTEGER NOT NULL CHECK(chunk_count>0),
  PRIMARY KEY(transaction_id,source_revision,source_attachment)
) STRICT;
CREATE TABLE backup_restore_stream_chunks (
  transaction_id BLOB NOT NULL CHECK(length(transaction_id)=16),
  source_revision BLOB NOT NULL CHECK(length(source_revision)=16),
  source_attachment BLOB NOT NULL CHECK(length(source_attachment)=16),
  chunk_index INTEGER NOT NULL CHECK(chunk_index>=0),
  ciphertext BLOB NOT NULL CHECK(length(ciphertext) BETWEEN 21 AND 1048597),
  PRIMARY KEY(transaction_id,source_revision,source_attachment,chunk_index)
) STRICT;
CREATE TABLE backup_restore_history (
  transaction_id BLOB NOT NULL CHECK(length(transaction_id)=16),
  record_type TEXT NOT NULL CHECK(record_type IN ('organization','settings','audit_bundle','authority_history','identity_metadata','partial_history')),
  record_id BLOB NOT NULL CHECK(length(record_id)=16),
  package BLOB NOT NULL CHECK(length(package) BETWEEN 1 AND 17825792),
  PRIMARY KEY(transaction_id,record_type,record_id)
) STRICT;
CREATE TABLE imported_backup_history (
  source_vault BLOB NOT NULL CHECK(length(source_vault)=16),
  backup_id BLOB NOT NULL CHECK(length(backup_id)=16),
  record_type TEXT NOT NULL CHECK(record_type IN ('organization','settings','audit_bundle','authority_history','identity_metadata','partial_history')),
  record_id BLOB NOT NULL CHECK(length(record_id)=16),
  package BLOB NOT NULL CHECK(length(package) BETWEEN 1 AND 17825792),
  PRIMARY KEY(source_vault,backup_id,record_type,record_id)
) STRICT;
CREATE TABLE human_receipts (
  transaction_id BLOB PRIMARY KEY CHECK (length(transaction_id) = 16),
  body_hash BLOB NOT NULL CHECK (length(body_hash) = 32),
  committed_heads BLOB NOT NULL CHECK (length(committed_heads) BETWEEN 1 AND 262144),
  committed_at_us INTEGER NOT NULL,
  outcome TEXT NOT NULL CHECK (outcome = 'committed')
) STRICT;
CREATE TABLE audit_keys (
  device_id BLOB NOT NULL CHECK (length(device_id) = 16),
  generation INTEGER NOT NULL CHECK (generation > 0),
  human_envelope BLOB NOT NULL CHECK (length(human_envelope) BETWEEN 1 AND 16777216),
  device_envelope BLOB NOT NULL CHECK (length(device_envelope) BETWEEN 49 AND 16777216),
  encryption_public_key BLOB NOT NULL CHECK (length(encryption_public_key) = 32),
  signing_public_key BLOB NOT NULL CHECK (length(signing_public_key) = 32),
  human_signature BLOB NOT NULL CHECK (length(human_signature) = 64),
  PRIMARY KEY (device_id, generation)
) STRICT;
CREATE TABLE audit_state (
  device_id BLOB PRIMARY KEY CHECK (length(device_id) = 16),
  generation INTEGER NOT NULL CHECK (generation > 0),
  seq INTEGER NOT NULL CHECK (seq > 0),
  last_hash BLOB NOT NULL CHECK (length(last_hash) = 32)
) STRICT;
CREATE TABLE encrypted_audit_records (
  device_id BLOB NOT NULL CHECK (length(device_id) = 16),
  generation INTEGER NOT NULL CHECK (generation > 0),
  seq INTEGER NOT NULL CHECK (seq > 0),
  event_id BLOB NOT NULL UNIQUE CHECK (length(event_id) = 16),
  segment_id BLOB NOT NULL CHECK (length(segment_id) = 16),
  record BLOB NOT NULL CHECK (length(record) BETWEEN 1 AND 8192),
  signature BLOB NOT NULL CHECK (length(signature) = 64),
  record_hash BLOB NOT NULL CHECK (length(record_hash) = 32),
  PRIMARY KEY (device_id, generation, seq)
) STRICT;
CREATE TABLE audit_segments (
  segment_id BLOB PRIMARY KEY CHECK (length(segment_id) = 16),
  device_id BLOB NOT NULL CHECK (length(device_id) = 16),
  generation INTEGER NOT NULL CHECK (generation > 0),
  first_seq INTEGER NOT NULL CHECK (first_seq > 0),
  last_seq INTEGER NOT NULL CHECK (last_seq >= first_seq),
  previous_hash BLOB NOT NULL CHECK (length(previous_hash) = 32),
  last_hash BLOB NOT NULL CHECK (length(last_hash) = 32),
  record_count INTEGER NOT NULL CHECK (record_count BETWEEN 0 AND 256),
  stored_bytes INTEGER NOT NULL CHECK (stored_bytes BETWEEN 0 AND 1048576),
  closed INTEGER NOT NULL CHECK (closed IN (0,1))
) STRICT;
CREATE UNIQUE INDEX one_open_audit_segment ON audit_segments(device_id,generation) WHERE closed=0;
CREATE TABLE audit_manifests (
  device_id BLOB NOT NULL CHECK (length(device_id) = 16),
  generation INTEGER NOT NULL CHECK (generation > 0),
  manifest_id BLOB NOT NULL CHECK (length(manifest_id) = 16),
  envelope BLOB NOT NULL CHECK (length(envelope) BETWEEN 1 AND 16777216),
  PRIMARY KEY (device_id,generation)
) STRICT;
CREATE TABLE audit_purge_ranges (
  device_id BLOB NOT NULL CHECK (length(device_id) = 16),
  generation INTEGER NOT NULL CHECK (generation > 0),
  first_seq INTEGER NOT NULL CHECK (first_seq > 0),
  last_seq INTEGER NOT NULL CHECK (last_seq >= first_seq),
  purge_event_id BLOB NOT NULL CHECK (length(purge_event_id) = 16),
  PRIMARY KEY (device_id,generation,first_seq,last_seq)
) STRICT;
CREATE TABLE agent_authorizations (
  subject_id BLOB NOT NULL CHECK (length(subject_id) = 16),
  generation INTEGER NOT NULL CHECK (generation > 0),
  request_id BLOB NOT NULL UNIQUE CHECK (length(request_id) = 16),
  transport_rpk BLOB NOT NULL UNIQUE CHECK (length(transport_rpk) = 44),
  label TEXT NOT NULL CHECK (length(CAST(label AS BLOB)) <= 256),
  environment_binding TEXT NOT NULL CHECK (length(CAST(environment_binding AS BLOB)) <= 256),
  grant_event_digest BLOB NOT NULL CHECK (length(grant_event_digest) = 32),
  revoke_event_digest BLOB CHECK (revoke_event_digest IS NULL OR length(revoke_event_digest) = 32),
  status TEXT NOT NULL CHECK (status IN ('active','revoked','superseded')),
  PRIMARY KEY (subject_id,generation)
) STRICT;
CREATE TABLE delegated_state (
  singleton INTEGER PRIMARY KEY CHECK (singleton=1),
  status TEXT NOT NULL CHECK (status IN ('resumed','suspended')),
  event_digest BLOB NOT NULL CHECK (length(event_digest) = 32)
) STRICT;
CREATE TABLE credential_authorizations (
  item_id BLOB PRIMARY KEY CHECK (length(item_id) = 16),
  revision_id BLOB NOT NULL CHECK (length(revision_id) = 16),
  status TEXT NOT NULL CHECK (status IN ('enabled','disabled')),
  event_digest BLOB NOT NULL CHECK (length(event_digest) = 32),
  control_package BLOB NOT NULL CHECK (length(control_package) BETWEEN 1 AND 16777216),
  grant BLOB NOT NULL CHECK (length(grant) BETWEEN 1 AND 16777216),
  grant_commitment BLOB NOT NULL CHECK (length(grant_commitment) = 32)
) STRICT;
CREATE TABLE authentication_attempts (
  attempt_id BLOB PRIMARY KEY CHECK(length(attempt_id)=16),
  item_id BLOB NOT NULL CHECK(length(item_id)=16),
  revision_id BLOB NOT NULL CHECK(length(revision_id)=16),
  owner_subject BLOB NOT NULL CHECK(length(owner_subject)=16),
  owner_generation INTEGER NOT NULL CHECK(owner_generation>0),
  state TEXT NOT NULL CHECK(state IN ('created','running','waiting_for_human','succeeded','failed','cancelled','expired','indeterminate')),
  created_at_us INTEGER NOT NULL,
  expires_at_us INTEGER NOT NULL,
  terminal_at_us INTEGER,
  scope_digest BLOB NOT NULL UNIQUE CHECK(length(scope_digest)=32),
  params_digest BLOB NOT NULL CHECK(length(params_digest)=32),
  state_package BLOB CHECK(state_package IS NULL OR length(state_package) BETWEEN 1 AND 16777216),
  lease_token BLOB CHECK(lease_token IS NULL OR length(lease_token)=16),
  claimed_at_us INTEGER,
  provider_sent INTEGER NOT NULL DEFAULT 0 CHECK(provider_sent IN (0,1))
) STRICT;
CREATE TABLE passkey_requests (
  request_id BLOB PRIMARY KEY CHECK (length(request_id)=16),
  request_digest BLOB NOT NULL CHECK (length(request_digest)=32),
  operation TEXT NOT NULL CHECK (operation IN ('create','get')),
  attempt_id BLOB CHECK (attempt_id IS NULL OR length(attempt_id)=16),
  request BLOB NOT NULL CHECK (length(request) BETWEEN 1 AND 262144),
  state TEXT NOT NULL CHECK (state IN ('waiting','complete')),
  item_id BLOB CHECK (item_id IS NULL OR length(item_id)=16),
  response BLOB CHECK (response IS NULL OR length(response) BETWEEN 1 AND 262144),
  created_at_us INTEGER NOT NULL,
  expires_at_us INTEGER NOT NULL CHECK (expires_at_us>created_at_us)
) STRICT;
CREATE TABLE passkey_registration_staging (
  transaction_id BLOB PRIMARY KEY CHECK (length(transaction_id)=16),
  request_id BLOB NOT NULL CHECK (length(request_id)=16),
  item_id BLOB NOT NULL CHECK (length(item_id)=16),
  response BLOB NOT NULL CHECK (length(response) BETWEEN 1 AND 262144)
) STRICT;
CREATE INDEX attempts_owner_state ON authentication_attempts(owner_subject,owner_generation,state);
CREATE TABLE attempt_clock (
  singleton INTEGER PRIMARY KEY CHECK(singleton=1),
  max_wall_us INTEGER NOT NULL
) STRICT;
