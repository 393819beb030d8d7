//! Durable desired-availability state for one project instance.
//!
//! Availability is daemon-owned intent. It is keyed by stable
//! [`ProjectInstanceId`] rather than a path and is persisted separately from
//! both project configuration and process snapshots.
//!
//! Wall-clock instants are nanoseconds since the Unix epoch, and durations are
//! nanoseconds.

use crate::digest::{append_bytes, canonical_digest, is_canonical_digest, sha256, sha256_digest};
use crate::identity::{uuid_text, ProjectInstanceId};
use crate::paths::{ancestors, join_path, non_empty, non_empty_ancestors, path_join, texts};
use crate::text::{
    all_whitespace, decimal, is_blank, lex_lt, lemma_lex_asymmetric, lemma_lex_irreflexive,
    lemma_lex_transitive, lower_hex, lower_hex_string, push_decimal, push_str, str_chars,
    compare_chars,
};
use vstd::prelude::*;
use vstd::string::*;

verus! {

/// The current on-disk availability schema.
pub const AVAILABILITY_VERSION: u32 = 1;

/// Nanoseconds in one second.
pub const NANOS_PER_SECOND: u64 = 1_000_000_000;

/// How long an explicit CLI demand remains live without renewal.
pub const MANUAL_DEMAND_TTL: u64 = 4 * 60 * 60 * NANOS_PER_SECOND;

/// The expected cadence for VS Code demand renewal.
pub const VSCODE_RENEWAL_INTERVAL: u64 = 30 * NANOS_PER_SECOND;

/// How long a VS Code demand remains live without renewal.
pub const VSCODE_DEMAND_TTL: u64 = 2 * 60 * NANOS_PER_SECOND;

/// The active portion of an agent-conversation demand.
pub const AGENT_ACTIVE_TTL: u64 = 15 * 60 * NANOS_PER_SECOND;

/// The review grace retained after an agent's active lease.
pub const AGENT_REVIEW_GRACE: u64 = 30 * 60 * NANOS_PER_SECOND;

/// How long an agent-conversation demand remains live without renewal.
pub const AGENT_DEMAND_TTL: u64 = 45 * 60 * NANOS_PER_SECOND;

/// How long a process-bound compatibility demand survives without revalidation.
pub const LEGACY_PROCESS_DEMAND_TTL: u64 = 2 * 60 * NANOS_PER_SECOND;

/// The default delay before stopping after the final live demand disappears.
pub const SHUTDOWN_COOLDOWN: u64 = 2 * 60 * NANOS_PER_SECOND;

/// The largest representable instant.
pub const LATEST_INSTANT: u64 = 0xffff_ffff_ffff_ffff;

// ---------------------------------------------------------------------------
// Demand kinds and keys
// ---------------------------------------------------------------------------

/// The semantic category of a renewable availability demand.
#[derive(Debug, Clone, Copy, PartialEq, Eq, Structural, PartialOrd, Ord, Hash)]
pub enum DemandKind {
    ManualCli,
    VsCodeWindow,
    AgentConversation,
    LegacyProcessAttachment,
    StoppedPageResume,
}

/// The position of a kind in declaration order, which orders keys.
pub open spec fn kind_rank(kind: DemandKind) -> int {
    match kind {
        DemandKind::ManualCli => 0,
        DemandKind::VsCodeWindow => 1,
        DemandKind::AgentConversation => 2,
        DemandKind::LegacyProcessAttachment => 3,
        DemandKind::StoppedPageResume => 4,
    }
}

/// The privacy-safe label of a kind.
pub open spec fn spec_safe_label(kind: DemandKind) -> Seq<char> {
    match kind {
        DemandKind::ManualCli => "Manual CLI"@,
        DemandKind::VsCodeWindow => "VS Code window"@,
        DemandKind::AgentConversation => "Agent conversation"@,
        DemandKind::LegacyProcessAttachment => "Legacy process attachment"@,
        DemandKind::StoppedPageResume => "Stopped-page resume"@,
    }
}

/// The lease window of a kind.
pub open spec fn spec_lease_duration(kind: DemandKind) -> u64 {
    match kind {
        DemandKind::ManualCli | DemandKind::StoppedPageResume => MANUAL_DEMAND_TTL,
        DemandKind::VsCodeWindow => VSCODE_DEMAND_TTL,
        DemandKind::AgentConversation => AGENT_DEMAND_TTL,
        DemandKind::LegacyProcessAttachment => LEGACY_PROCESS_DEMAND_TTL,
    }
}

/// Whether a kind is keyed by an owner digest (`true`) or is a singleton.
pub open spec fn spec_accepts_owner_state(kind: DemandKind, has_owner: bool) -> bool {
    match kind {
        DemandKind::ManualCli => true,
        DemandKind::VsCodeWindow | DemandKind::AgentConversation | DemandKind::LegacyProcessAttachment => has_owner,
        DemandKind::StoppedPageResume => !has_owner,
    }
}

/// The kind's tag in durable state and in owner digests.
pub open spec fn spec_persistence_tag(kind: DemandKind) -> Seq<char> {
    match kind {
        DemandKind::ManualCli => "manual_cli"@,
        DemandKind::VsCodeWindow => "vs_code_window"@,
        DemandKind::AgentConversation => "agent_conversation"@,
        DemandKind::LegacyProcessAttachment => "legacy_process_attachment"@,
        DemandKind::StoppedPageResume => "stopped_page_resume"@,
    }
}

/// The kind's name as written in diagnostics.
pub open spec fn spec_kind_name(kind: DemandKind) -> Seq<char> {
    match kind {
        DemandKind::ManualCli => "ManualCli"@,
        DemandKind::VsCodeWindow => "VsCodeWindow"@,
        DemandKind::AgentConversation => "AgentConversation"@,
        DemandKind::LegacyProcessAttachment => "LegacyProcessAttachment"@,
        DemandKind::StoppedPageResume => "StoppedPageResume"@,
    }
}

impl DemandKind {
    /// A privacy-safe label suitable for normal status projections.
    pub fn safe_label(self) -> (r: &'static str)
        ensures
            r@ == spec_safe_label(self),
    {
        match self {
            DemandKind::ManualCli => "Manual CLI",
            DemandKind::VsCodeWindow => "VS Code window",
            DemandKind::AgentConversation => "Agent conversation",
            DemandKind::LegacyProcessAttachment => "Legacy process attachment",
            DemandKind::StoppedPageResume => "Stopped-page resume",
        }
    }

    fn lease_duration(self) -> (r: u64)
        ensures
            r == spec_lease_duration(self),
    {
        match self {
            DemandKind::ManualCli | DemandKind::StoppedPageResume => MANUAL_DEMAND_TTL,
            DemandKind::VsCodeWindow => VSCODE_DEMAND_TTL,
            DemandKind::AgentConversation => AGENT_DEMAND_TTL,
            DemandKind::LegacyProcessAttachment => LEGACY_PROCESS_DEMAND_TTL,
        }
    }

    fn accepts_owner_state(self, has_owner: bool) -> (r: bool)
        ensures
            r == spec_accepts_owner_state(self, has_owner),
    {
        match self {
            DemandKind::ManualCli => true,
            DemandKind::VsCodeWindow | DemandKind::AgentConversation | DemandKind::LegacyProcessAttachment => has_owner,
            DemandKind::StoppedPageResume => !has_owner,
        }
    }

    fn persistence_tag(self) -> (r: &'static str)
        ensures
            r@ == spec_persistence_tag(self),
    {
        match self {
            DemandKind::ManualCli => "manual_cli",
            DemandKind::VsCodeWindow => "vs_code_window",
            DemandKind::AgentConversation => "agent_conversation",
            DemandKind::LegacyProcessAttachment => "legacy_process_attachment",
            DemandKind::StoppedPageResume => "stopped_page_resume",
        }
    }

    fn name(self) -> (r: &'static str)
        ensures
            r@ == spec_kind_name(self),
    {
        match self {
            DemandKind::ManualCli => "ManualCli",
            DemandKind::VsCodeWindow => "VsCodeWindow",
            DemandKind::AgentConversation => "AgentConversation",
            DemandKind::LegacyProcessAttachment => "LegacyProcessAttachment",
            DemandKind::StoppedPageResume => "StoppedPageResume",
        }
    }
}

/// A validation failure while constructing a demand key from private host data.
#[derive(Debug, Clone, Copy, PartialEq, Eq, Structural)]
pub enum DemandKeyError {
    EmptyPrivateIdentity { kind: DemandKind },
}

/// The framed input whose SHA-256 digest names a private demand owner:
/// the domain separator, the kind's tag, a zero byte, and the identity.
pub open spec fn owner_digest_input(kind: DemandKind, private_identity: Seq<char>) -> Seq<u8> {
    utf8_bytes("locald-demand-owner-v1\0"@) + utf8_bytes(spec_persistence_tag(kind)) + seq![0u8] + utf8_bytes(
        private_identity,
    )
}

/// The UTF-8 bytes of a character sequence.
pub open spec fn utf8_bytes(s: Seq<char>) -> Seq<u8> {
    vstd::utf8::encode_utf8(s)
}


/// The owner name of a private identity: the lowercase hex SHA-256 digest of
/// its framed input.
pub open spec fn spec_owner_digest(kind: DemandKind, private_identity: Seq<char>) -> Seq<char> {
    lower_hex(sha256_digest(owner_digest_input(kind, private_identity)))
}

/// A stable, privacy-preserving demand-owner digest.
#[derive(Debug, PartialEq, Eq, PartialOrd, Ord, Hash)]
pub struct OpaqueDemandOwner {
    pub digest: String,
}

impl Clone for OpaqueDemandOwner {
    fn clone(&self) -> (r: Self)
        ensures
            r == *self,
    {
        OpaqueDemandOwner { digest: self.digest.clone() }
    }
}

impl OpaqueDemandOwner {
    /// Hash a private identity; a blank identity is refused.
    pub fn digest(kind: DemandKind, private_identity: &str) -> (r: Result<Self, DemandKeyError>)
        ensures
            match r {
                Ok(owner) => !all_whitespace(private_identity@) && owner.digest@ == spec_owner_digest(kind, private_identity@),
                Err(e) => all_whitespace(private_identity@) && e == (DemandKeyError::EmptyPrivateIdentity { kind }),
            },
    {
        if is_blank(private_identity) {
            return Err(DemandKeyError::EmptyPrivateIdentity { kind });
        }
        let mut input: Vec<u8> = Vec::new();
        append_bytes(&mut input, "locald-demand-owner-v1\0".as_bytes());
        append_bytes(&mut input, kind.persistence_tag().as_bytes());
        input.push(0u8);
        append_bytes(&mut input, private_identity.as_bytes());
        proof {
            assert(input@ =~= owner_digest_input(kind, private_identity@));
        }
        let hash = sha256(input.as_slice());
        Ok(OpaqueDemandOwner { digest: lower_hex_string(hash.as_slice()) })
    }

    /// Whether the owner is a canonical SHA-256 digest.
    pub fn is_valid(&self) -> (r: bool)
        ensures
            r == is_canonical_digest(self.digest@),
    {
        canonical_digest(self.digest.as_str())
    }
}

/// The stable key for one independent availability demand.
///
/// Private editor, conversation, and compatibility identities are hashed
/// before they enter durable state. Normal status surfaces expose only
/// [`DemandKind`] and [`DemandKind::safe_label`].
#[derive(Debug, PartialEq, Eq, PartialOrd, Ord, Hash)]
pub struct DemandKey {
    pub kind: DemandKind,
    pub owner: Option<OpaqueDemandOwner>,
}

impl Clone for DemandKey {
    fn clone(&self) -> (r: Self)
        ensures
            r == *self,
    {
        DemandKey {
            kind: self.kind,
            owner: match &self.owner {
                Some(o) => Some(o.clone()),
                None => None,
            },
        }
    }
}

/// A key as its kind and owner text; keys with equal views are the same key.
pub open spec fn key_view(k: DemandKey) -> (DemandKind, Option<Seq<char>>) {
    (
        k.kind,
        match k.owner {
            Some(o) => Some(o.digest@),
            None => None,
        },
    )
}

/// The key order: by kind in declaration order, then no owner before an
/// owner, then owner text in code-point order (the byte order of its UTF-8).
pub open spec fn key_lt(a: (DemandKind, Option<Seq<char>>), b: (DemandKind, Option<Seq<char>>)) -> bool {
    kind_rank(a.0) < kind_rank(b.0) || (a.0 == b.0 && match (a.1, b.1) {
        (None, Some(_)) => true,
        (Some(x), Some(y)) => lex_lt(x, y),
        _ => false,
    })
}

/// The key of a private owner of `kind`.
pub open spec fn spec_owned_key(kind: DemandKind, private_identity: Seq<char>) -> (DemandKind, Option<Seq<char>>) {
    (kind, Some(spec_owner_digest(kind, private_identity)))
}

/// What building an owned key returns.
pub open spec fn owned_key_result(r: Result<DemandKey, DemandKeyError>, kind: DemandKind, private_identity: Seq<char>) -> bool {
    match r {
        Ok(k) => !all_whitespace(private_identity) && key_view(k) == spec_owned_key(kind, private_identity),
        Err(e) => all_whitespace(private_identity) && e == (DemandKeyError::EmptyPrivateIdentity { kind }),
    }
}

/// Whether a key is well formed: singletons carry no owner, owned kinds carry
/// a canonical digest, and a manual key may carry either.
pub open spec fn spec_key_valid(k: (DemandKind, Option<Seq<char>>)) -> bool {
    spec_accepts_owner_state(k.0, k.1 is Some) && (k.1 matches Some(o) ==> is_canonical_digest(o))
}

/// The diagnostic for an invalid key.
pub open spec fn key_error_message(k: (DemandKind, Option<Seq<char>>)) -> Seq<char> {
    if !spec_accepts_owner_state(k.0, k.1 is Some) {
        spec_kind_name(k.0) + " demand has an invalid owner representation"@
    } else {
        spec_kind_name(k.0) + " demand owner is not a canonical SHA-256 digest"@
    }
}

impl DemandKey {
    /// The singleton manual CLI demand used by `locald up`.
    pub fn manual_cli() -> (r: Self)
        ensures
            key_view(r) == (DemandKind::ManualCli, None::<Seq<char>>),
    {
        DemandKey { kind: DemandKind::ManualCli, owner: None }
    }

    /// A Manual CLI demand owned by one retry-stable log-following session.
    pub fn manual_cli_session(private_identity: &str) -> (r: Result<Self, DemandKeyError>)
        ensures
            owned_key_result(r, DemandKind::ManualCli, private_identity@),
    {
        Self::owned(DemandKind::ManualCli, private_identity)
    }

    /// A demand owned by one trusted VS Code window identity.
    pub fn vs_code_window(private_identity: &str) -> (r: Result<Self, DemandKeyError>)
        ensures
            owned_key_result(r, DemandKind::VsCodeWindow, private_identity@),
    {
        Self::owned(DemandKind::VsCodeWindow, private_identity)
    }

    /// A demand owned by one private agent-conversation identity.
    pub fn agent_conversation(private_identity: &str) -> (r: Result<Self, DemandKeyError>)
        ensures
            owned_key_result(r, DemandKind::AgentConversation, private_identity@),
    {
        Self::owned(DemandKind::AgentConversation, private_identity)
    }

    /// A process-bound compatibility demand imported from legacy state.
    pub fn legacy_process_attachment(private_identity: &str) -> (r: Result<Self, DemandKeyError>)
        ensures
            owned_key_result(r, DemandKind::LegacyProcessAttachment, private_identity@),
    {
        Self::owned(DemandKind::LegacyProcessAttachment, private_identity)
    }

    /// The singleton demand created by an explicit stopped-page Resume action.
    pub fn stopped_page_resume() -> (r: Self)
        ensures
            key_view(r) == (DemandKind::StoppedPageResume, None::<Seq<char>>),
    {
        DemandKey { kind: DemandKind::StoppedPageResume, owner: None }
    }

    /// Return the privacy-safe demand category.
    pub fn kind(&self) -> (r: DemandKind)
        ensures
            r == self.kind,
    {
        self.kind
    }

    /// Return the privacy-safe label for normal status projections.
    pub fn safe_label(&self) -> (r: &'static str)
        ensures
            r@ == spec_safe_label(self.kind),
    {
        self.kind.safe_label()
    }

    fn owned(kind: DemandKind, private_identity: &str) -> (r: Result<Self, DemandKeyError>)
        ensures
            owned_key_result(r, kind, private_identity@),
    {
        match OpaqueDemandOwner::digest(kind, private_identity) {
            Ok(owner) => Ok(DemandKey { kind, owner: Some(owner) }),
            Err(e) => Err(e),
        }
    }

    /// Check the owner representation of a key read from durable state.
    pub fn validate(&self) -> (r: Result<(), String>)
        ensures
            r is Ok <==> spec_key_valid(key_view(*self)),
            r matches Err(msg) ==> msg@ == key_error_message(key_view(*self)),
    {
        if !self.kind.accepts_owner_state(self.owner.is_some()) {
            let mut msg = String::new();
            push_str(&mut msg, self.kind.name());
            push_str(&mut msg, " demand has an invalid owner representation");
            return Err(msg);
        }
        match &self.owner {
            Some(owner) => {
                if !owner.is_valid() {
                    let mut msg = String::new();
                    push_str(&mut msg, self.kind.name());
                    push_str(&mut msg, " demand owner is not a canonical SHA-256 digest");
                    return Err(msg);
                }
            },
            None => {},
        }
        Ok(())
    }
}

/// Whether two keys are the same key.
fn same_key(a: &DemandKey, b: &DemandKey) -> (r: bool)
    ensures
        r == (key_view(*a) == key_view(*b)),
{
    if a.kind != b.kind {
        return false;
    }
    match (&a.owner, &b.owner) {
        (None, None) => true,
        (Some(x), Some(y)) => {
            let cx = str_chars(x.digest.as_str());
            let cy = str_chars(y.digest.as_str());
            compare_chars(cx.as_slice(), cy.as_slice()) == 0
        },
        _ => false,
    }
}

fn kind_rank_exec(k: DemandKind) -> (r: u8)
    ensures
        r as int == kind_rank(k),
{
    match k {
        DemandKind::ManualCli => 0,
        DemandKind::VsCodeWindow => 1,
        DemandKind::AgentConversation => 2,
        DemandKind::LegacyProcessAttachment => 3,
        DemandKind::StoppedPageResume => 4,
    }
}

/// Whether `a` orders strictly before `b`.
fn key_before(a: &DemandKey, b: &DemandKey) -> (r: bool)
    ensures
        r == key_lt(key_view(*a), key_view(*b)),
{
    let ra = kind_rank_exec(a.kind);
    let rb = kind_rank_exec(b.kind);
    if ra != rb {
        return ra < rb;
    }
    proof {
        assert(a.kind == b.kind) by {
            assert(kind_rank(a.kind) == kind_rank(b.kind));
        }
    }
    match (&a.owner, &b.owner) {
        (None, Some(_)) => true,
        (Some(x), Some(y)) => {
            let cx = str_chars(x.digest.as_str());
            let cy = str_chars(y.digest.as_str());
            compare_chars(cx.as_slice(), cy.as_slice()) < 0
        },
        _ => false,
    }
}

pub proof fn lemma_key_lt_irreflexive(a: (DemandKind, Option<Seq<char>>))
    ensures
        !key_lt(a, a),
{
    if let Some(x) = a.1 {
        lemma_lex_irreflexive(x);
    }
}

pub proof fn lemma_key_lt_transitive(
    a: (DemandKind, Option<Seq<char>>),
    b: (DemandKind, Option<Seq<char>>),
    c: (DemandKind, Option<Seq<char>>),
)
    requires
        key_lt(a, b),
        key_lt(b, c),
    ensures
        key_lt(a, c),
{
    if a.0 == b.0 && b.0 == c.0 {
        if let (Some(x), Some(y), Some(z)) = (a.1, b.1, c.1) {
            lemma_lex_transitive(x, y, z);
        }
    }
}

pub proof fn lemma_key_lt_total(a: (DemandKind, Option<Seq<char>>), b: (DemandKind, Option<Seq<char>>))
    ensures
        key_lt(a, b) || key_lt(b, a) || a == b,
{
    if a.0 == b.0 {
        if let (Some(x), Some(y)) = (a.1, b.1) {
            crate::text::lemma_lex_total(x, y);
        }
    }
}

// ---------------------------------------------------------------------------
// Leases
// ---------------------------------------------------------------------------

/// Whether `now + duration` is representable.
pub open spec fn deadline_fits(now: u64, duration: u64) -> bool {
    now + duration <= LATEST_INSTANT
}

/// The diagnostic for a deadline past the latest representable instant.
pub open spec fn deadline_message() -> Seq<char> {
    "demand expiry exceeds the representable time range"@
}

fn deadline(now: u64, duration: u64) -> (r: Result<u64, String>)
    ensures
        r is Ok <==> deadline_fits(now, duration),
        r matches Ok(t) ==> t == now + duration,
        r matches Err(msg) ==> msg@ == deadline_message(),
{
    if duration > LATEST_INSTANT - now {
        Err(String::from_str("demand expiry exceeds the representable time range"))
    } else {
        Ok(now + duration)
    }
}

/// One independently renewable reason for keeping a project instance up.
#[derive(Debug, PartialEq, Eq)]
pub struct DemandLease {
    pub key: DemandKey,
    pub generation: u64,
    pub acquired_at: u64,
    pub renewed_at: u64,
    pub expires_at: Option<u64>,
}

impl Clone for DemandLease {
    fn clone(&self) -> (r: Self)
        ensures
            r == *self,
    {
        DemandLease {
            key: self.key.clone(),
            generation: self.generation,
            acquired_at: self.acquired_at,
            renewed_at: self.renewed_at,
            expires_at: self.expires_at,
        }
    }
}

/// Whether a lease is live at `now`: it has no deadline or ends after `now`.
pub open spec fn spec_is_live(l: DemandLease, now: u64) -> bool {
    match l.expires_at {
        Some(e) => e > now,
        None => true,
    }
}

/// The lease a renewal at `now` produces: renewal time never moves backwards
/// and the deadline is one lease window after it.
pub open spec fn renewed_lease(l: DemandLease, now: u64) -> DemandLease {
    let at = if now > l.renewed_at { now } else { l.renewed_at };
    DemandLease { renewed_at: at, expires_at: Some((at + spec_lease_duration(l.key.kind)) as u64), ..l }
}

/// Whether a renewal at `now` stays within the representable time range.
pub open spec fn renewal_fits(l: DemandLease, now: u64) -> bool {
    let at = if now > l.renewed_at { now } else { l.renewed_at };
    deadline_fits(at, spec_lease_duration(l.key.kind))
}

/// A fresh lease acquired at `now` in `generation`.
pub open spec fn fresh_lease(key: DemandKey, generation: u64, now: u64) -> DemandLease {
    DemandLease {
        key,
        generation,
        acquired_at: now,
        renewed_at: now,
        expires_at: Some((now + spec_lease_duration(key.kind)) as u64),
    }
}

/// Whether a lease read from durable state is well formed under the
/// record's activity generation.
pub open spec fn spec_lease_valid(l: DemandLease, activity_generation: u64) -> bool {
    &&& spec_key_valid(key_view(l.key))
    &&& 1 <= l.generation <= activity_generation
    &&& l.acquired_at <= l.renewed_at
    &&& deadline_fits(l.renewed_at, spec_lease_duration(l.key.kind))
    &&& l.expires_at == Some((l.renewed_at + spec_lease_duration(l.key.kind)) as u64)
}

/// The diagnostic for the first broken lease rule.
pub open spec fn lease_error_message(l: DemandLease, activity_generation: u64) -> Seq<char> {
    let name = spec_kind_name(l.key.kind);
    if !spec_key_valid(key_view(l.key)) {
        key_error_message(key_view(l.key))
    } else if !(1 <= l.generation <= activity_generation) {
        name + " demand generation "@ + decimal(l.generation as nat) + " is outside 1..="@ + decimal(
            activity_generation as nat,
        )
    } else if l.renewed_at < l.acquired_at {
        name + " demand renewal predates acquisition"@
    } else if !deadline_fits(l.renewed_at, spec_lease_duration(l.key.kind)) {
        deadline_message()
    } else {
        name + " demand expiry does not match its canonical lease duration"@
    }
}

impl DemandLease {
    pub fn key(&self) -> (r: &DemandKey)
        ensures
            *r == self.key,
    {
        &self.key
    }

    pub fn kind(&self) -> (r: DemandKind)
        ensures
            r == self.key.kind,
    {
        self.key.kind
    }

    pub fn safe_label(&self) -> (r: &'static str)
        ensures
            r@ == spec_safe_label(self.key.kind),
    {
        self.key.safe_label()
    }

    pub fn generation(&self) -> (r: u64)
        ensures
            r == self.generation,
    {
        self.generation
    }

    pub fn acquired_at(&self) -> (r: u64)
        ensures
            r == self.acquired_at,
    {
        self.acquired_at
    }

    pub fn renewed_at(&self) -> (r: u64)
        ensures
            r == self.renewed_at,
    {
        self.renewed_at
    }

    pub fn expires_at(&self) -> (r: Option<u64>)
        ensures
            r == self.expires_at,
    {
        self.expires_at
    }

    /// Whether this demand is live at the supplied wall-clock time.
    pub fn is_live_at(&self, now: u64) -> (r: bool)
        ensures
            r == spec_is_live(*self, now),
    {
        match self.expires_at {
            Some(e) => e > now,
            None => true,
        }
    }

    fn new(key: DemandKey, generation: u64, now: u64) -> (r: Result<Self, String>)
        ensures
            r is Ok <==> deadline_fits(now, spec_lease_duration(key.kind)),
            r matches Ok(l) ==> l == fresh_lease(key, generation, now),
            r matches Err(msg) ==> msg@ == deadline_message(),
    {
        let expires_at = deadline(now, key.kind.lease_duration())?;
        Ok(DemandLease { key, generation, acquired_at: now, renewed_at: now, expires_at: Some(expires_at) })
    }

    fn renew(&mut self, now: u64) -> (r: Result<(), String>)
        ensures
            r is Ok <==> renewal_fits(*old(self), now),
            r is Ok ==> *final(self) == renewed_lease(*old(self), now),
            r is Err ==> *final(self) == *old(self),
            r matches Err(msg) ==> msg@ == deadline_message(),
    {
        let effective_now = if now > self.renewed_at { now } else { self.renewed_at };
        let expires_at = deadline(effective_now, self.key.kind.lease_duration())?;
        self.renewed_at = effective_now;
        self.expires_at = Some(expires_at);
        Ok(())
    }

    /// Check a lease read from durable state.
    pub fn validate(&self, activity_generation: u64) -> (r: Result<(), String>)
        ensures
            r is Ok <==> spec_lease_valid(*self, activity_generation),
            r matches Err(msg) ==> msg@ == lease_error_message(*self, activity_generation),
    {
        self.key.validate()?;
        if self.generation == 0 || self.generation > activity_generation {
            let mut msg = String::new();
            push_str(&mut msg, self.key.kind.name());
            push_str(&mut msg, " demand generation ");
            push_decimal(&mut msg, self.generation);
            push_str(&mut msg, " is outside 1..=");
            push_decimal(&mut msg, activity_generation);
            return Err(msg);
        }
        if self.renewed_at < self.acquired_at {
            let mut msg = String::new();
            push_str(&mut msg, self.key.kind.name());
            push_str(&mut msg, " demand renewal predates acquisition");
            return Err(msg);
        }
        let expected = deadline(self.renewed_at, self.key.kind.lease_duration())?;
        if self.expires_at != Some(expected) {
            let mut msg = String::new();
            push_str(&mut msg, self.key.kind.name());
            push_str(&mut msg, " demand expiry does not match its canonical lease duration");
            return Err(msg);
        }
        Ok(())
    }
}

// ---------------------------------------------------------------------------
// Lease lists
// ---------------------------------------------------------------------------

/// Leases ordered by key (equal keys may sit together in any order).
pub open spec fn demands_sorted(s: Seq<DemandLease>) -> bool {
    forall|i: int, j: int| 0 <= i < j < s.len() ==> !key_lt(key_view(#[trigger] s[j].key), key_view(#[trigger] s[i].key))
}

/// The index of the first lease with key `k`.
pub open spec fn key_position(s: Seq<DemandLease>, k: (DemandKind, Option<Seq<char>>)) -> Option<int>
    decreases s.len(),
{
    if s.len() == 0 {
        None
    } else {
        match key_position(s.drop_last(), k) {
            Some(i) => Some(i),
            None => if key_view(s.last().key) == k {
                Some(s.len() - 1)
            } else {
                None
            },
        }
    }
}

/// The leases without key `k`, in order.
pub open spec fn without_key(s: Seq<DemandLease>, k: (DemandKind, Option<Seq<char>>)) -> Seq<DemandLease>
    decreases s.len(),
{
    if s.len() == 0 {
        s
    } else if key_view(s.last().key) == k {
        without_key(s.drop_last(), k)
    } else {
        without_key(s.drop_last(), k).push(s.last())
    }
}

/// The leases live at `now`, in order.
pub open spec fn live_leases(s: Seq<DemandLease>, now: u64) -> Seq<DemandLease>
    decreases s.len(),
{
    if s.len() == 0 {
        s
    } else if spec_is_live(s.last(), now) {
        live_leases(s.drop_last(), now).push(s.last())
    } else {
        live_leases(s.drop_last(), now)
    }
}

/// Whether a lease generation is newer than the pause barrier.
pub open spec fn generation_effective(pause_through_generation: Option<u64>, generation: u64) -> bool {
    match pause_through_generation {
        Some(pause) => generation > pause,
        None => true,
    }
}

/// The live leases newer than the pause barrier, in order.
pub open spec fn effective_leases(s: Seq<DemandLease>, pause_through_generation: Option<u64>, now: u64) -> Seq<DemandLease>
    decreases s.len(),
{
    if s.len() == 0 {
        s
    } else if spec_is_live(s.last(), now) && generation_effective(pause_through_generation, s.last().generation) {
        effective_leases(s.drop_last(), pause_through_generation, now).push(s.last())
    } else {
        effective_leases(s.drop_last(), pause_through_generation, now)
    }
}

/// The latest deadline among leases newer than the pause barrier that are no
/// longer live at `now`: the instant availability was lost.
pub open spec fn loss_instant(s: Seq<DemandLease>, pause_through_generation: Option<u64>, now: u64) -> Option<u64>
    decreases s.len(),
{
    if s.len() == 0 {
        None
    } else {
        let rest = loss_instant(s.drop_last(), pause_through_generation, now);
        let l = s.last();
        if generation_effective(pause_through_generation, l.generation) && !spec_is_live(l, now) {
            match (rest, l.expires_at) {
                (Some(a), Some(b)) => Some(if a > b { a } else { b }),
                (None, Some(b)) => Some(b),
                (_, None) => rest,
            }
        } else {
            rest
        }
    }
}

fn find_key(v: &Vec<DemandLease>, key: &DemandKey) -> (r: Option<usize>)
    ensures
        match r {
            Some(i) => key_position(v@, key_view(*key)) == Some(i as int),
            None => key_position(v@, key_view(*key)) is None,
        },
        key_position(v@, key_view(*key)) is None <==> forall|i: int| 0 <= i < v@.len() ==> key_view(#[trigger] v@[i].key) != key_view(*key),
        key_position(v@, key_view(*key)) matches Some(i) ==> 0 <= i < v@.len() && key_view(v@[i].key) == key_view(*key),
{
    let ghost k = key_view(*key);
    let mut i: usize = 0;
    while i < v.len()
        invariant
            i <= v@.len(),
            k == key_view(*key),
            key_position(v@.take(i as int), k) is None,
            forall|j: int| 0 <= j < i ==> key_view(#[trigger] v@[j].key) != k,
        decreases v@.len() - i,
    {
        proof {
            assert(v@.take(i + 1).drop_last() =~= v@.take(i as int));
            assert(v@.take(i + 1).last() == v@[i as int]);
        }
        if same_key(&v[i].key, key) {
            proof {
                assert(key_position(v@.take(i as int + 1), k) == Some(i as int));
                lemma_key_position_prefix(v@, i as int + 1, k);
            }
            return Some(i);
        }
        i = i + 1;
    }
    proof {
        assert(v@.take(v@.len() as int) =~= v@);
    }
    None
}

/// A first occurrence in a prefix is the first occurrence in the whole list.
proof fn lemma_key_position_prefix(s: Seq<DemandLease>, n: int, k: (DemandKind, Option<Seq<char>>))
    requires
        0 <= n <= s.len(),
        key_position(s.take(n), k) is Some,
    ensures
        key_position(s, k) == key_position(s.take(n), k),
    decreases s.len() - n,
{
    if n < s.len() {
        assert(s.take(n + 1).drop_last() =~= s.take(n));
        lemma_key_position_prefix(s, n + 1, k);
    } else {
        assert(s.take(n) =~= s);
    }
}

fn same_key_lease(l: &DemandLease, key: &DemandKey) -> (r: bool)
    ensures
        r == (key_view(l.key) == key_view(*key)),
{
    same_key(&l.key, key)
}

/// Where `x` goes in a key-ordered list: after every lease it does not
/// precede, so equal keys keep their arrival order.
pub open spec fn insert_position(s: Seq<DemandLease>, x: DemandLease) -> int
    decreases s.len(),
{
    if s.len() == 0 {
        0
    } else if key_lt(key_view(x.key), key_view(s[0].key)) {
        0
    } else {
        1 + insert_position(s.drop_first(), x)
    }
}

/// The stable sort of leases by key.
pub open spec fn sorted_by_key(s: Seq<DemandLease>) -> Seq<DemandLease>
    decreases s.len(),
{
    if s.len() == 0 {
        s
    } else {
        let t = sorted_by_key(s.drop_last());
        t.insert(insert_position(t, s.last()), s.last())
    }
}

proof fn lemma_insert_position(s: Seq<DemandLease>, x: DemandLease, p: int)
    requires
        0 <= p <= s.len(),
        forall|a: int| 0 <= a < p ==> !key_lt(key_view(x.key), key_view(#[trigger] s[a].key)),
        p < s.len() ==> key_lt(key_view(x.key), key_view(s[p].key)),
    ensures
        insert_position(s, x) == p,
    decreases s.len(),
{
    if s.len() > 0 && p > 0 {
        let t = s.drop_first();
        assert forall|a: int| 0 <= a < p - 1 implies !key_lt(key_view(x.key), key_view(#[trigger] t[a].key)) by {
            assert(t[a] == s[a + 1]);
        }
        if p < s.len() {
            assert(t[p - 1] == s[p]);
        }
        lemma_insert_position(t, x, p - 1);
        assert(!key_lt(key_view(x.key), key_view(s[0].key)));
    }
}

/// Sort leases by key, keeping equal keys in their original order.
fn sort_by_key(v: Vec<DemandLease>) -> (r: Vec<DemandLease>)
    ensures
        r@ == sorted_by_key(v@),
        demands_sorted(r@),
        r@.to_multiset() == v@.to_multiset(),
{
    let mut out: Vec<DemandLease> = Vec::new();
    let mut i: usize = 0;
    proof {
        assert(v@.take(0) =~= Seq::<DemandLease>::empty());
    }
    while i < v.len()
        invariant
            i <= v@.len(),
            out@ == sorted_by_key(v@.take(i as int)),
            demands_sorted(out@),
            out@.to_multiset() == v@.take(i as int).to_multiset(),
        decreases v@.len() - i,
    {
        let x = v[i].clone();
        let mut p: usize = 0;
        while p < out.len()
            invariant
                p <= out@.len(),
                forall|a: int| 0 <= a < p ==> !key_lt(key_view(x.key), key_view(#[trigger] out@[a].key)),
            ensures
                p <= out@.len(),
                forall|a: int| 0 <= a < p ==> !key_lt(key_view(x.key), key_view(#[trigger] out@[a].key)),
                p < out@.len() ==> key_lt(key_view(x.key), key_view(out@[p as int].key)),
            decreases out@.len() - p,
        {
            if key_before(&x.key, &out[p].key) {
                break;
            }
            p = p + 1;
        }
        let ghost before = out@;
        out.insert(p, x.clone());
        proof {
            assert(out@ == before.insert(p as int, x));
            lemma_insert_position(before, x, p as int);
            assert(v@.take(i + 1).drop_last() =~= v@.take(i as int));
            assert(v@.take(i + 1).last() == x);
            assert forall|a: int, b: int| 0 <= a < b < out@.len() implies !key_lt(
                key_view(#[trigger] out@[b].key),
                key_view(#[trigger] out@[a].key),
            ) by {
                if b < p {
                    assert(out@[a] == before[a] && out@[b] == before[b]);
                } else if b == p {
                    assert(out@[a] == before[a]);
                } else if a == p {
                    assert(out@[b] == before[b - 1]);
                    assert(key_lt(key_view(x.key), key_view(before[p as int].key)));
                    if b - 1 > p {
                        if key_lt(key_view(before[b - 1].key), key_view(x.key)) {
                            lemma_key_lt_transitive(
                                key_view(before[b - 1].key),
                                key_view(x.key),
                                key_view(before[p as int].key),
                            );
                        }
                    } else {
                        lemma_key_lt_irreflexive(key_view(x.key));
                        if key_lt(key_view(before[p as int].key), key_view(x.key)) {
                            lemma_key_lt_transitive(
                                key_view(x.key),
                                key_view(before[p as int].key),
                                key_view(x.key),
                            );
                        }
                    }
                } else if a < p {
                    assert(out@[a] == before[a] && out@[b] == before[b - 1]);
                } else {
                    assert(out@[a] == before[a - 1] && out@[b] == before[b - 1]);
                }
            }
            assert(v@.take(i + 1) =~= v@.take(i as int).push(v@[i as int]));
            vstd::seq_lib::to_multiset_insert(before, p as int, x);
            vstd::seq_lib::to_multiset_build(v@.take(i as int), v@[i as int]);
        }
        i = i + 1;
    }
    proof {
        assert(v@.take(v@.len() as int) =~= v@);
    }
    out
}

/// The leases without key `k`, in order.
fn remove_key(v: &Vec<DemandLease>, key: &DemandKey) -> (r: Vec<DemandLease>)
    ensures
        r@ == without_key(v@, key_view(*key)),
{
    let ghost k = key_view(*key);
    let mut out: Vec<DemandLease> = Vec::new();
    let mut i: usize = 0;
    proof {
        assert(v@.take(0) =~= Seq::<DemandLease>::empty());
    }
    while i < v.len()
        invariant
            i <= v@.len(),
            k == key_view(*key),
            out@ == without_key(v@.take(i as int), k),
        decreases v@.len() - i,
    {
        proof {
            assert(v@.take(i + 1).drop_last() =~= v@.take(i as int));
            assert(v@.take(i + 1).last() == v@[i as int]);
        }
        if !same_key(&v[i].key, key) {
            out.push(v[i].clone());
        }
        i = i + 1;
    }
    proof {
        assert(v@.take(v@.len() as int) =~= v@);
    }
    out
}

/// The length of a filtered list never exceeds the list's.
proof fn lemma_live_leases_len(s: Seq<DemandLease>, now: u64)
    ensures
        live_leases(s, now).len() <= s.len(),
    decreases s.len(),
{
    if s.len() > 0 {
        lemma_live_leases_len(s.drop_last(), now);
    }
}

/// A key is absent from the list exactly when it has no position.
proof fn lemma_key_position_none(s: Seq<DemandLease>, k: (DemandKind, Option<Seq<char>>))
    ensures
        key_position(s, k) is None <==> forall|i: int| 0 <= i < s.len() ==> key_view(#[trigger] s[i].key) != k,
        key_position(s, k) matches Some(i) ==> 0 <= i < s.len() && key_view(s[i].key) == k && forall|j: int|
            0 <= j < i ==> key_view(#[trigger] s[j].key) != k,
    decreases s.len(),
{
    if s.len() > 0 {
        let t = s.drop_last();
        lemma_key_position_none(t, k);
        if key_position(s, k) is None {
            assert forall|i: int| 0 <= i < s.len() implies key_view(#[trigger] s[i].key) != k by {
                if i < t.len() {
                    assert(t[i] == s[i]);
                }
            }
        }
        if forall|i: int| 0 <= i < s.len() ==> key_view(#[trigger] s[i].key) != k {
            assert forall|i: int| 0 <= i < t.len() implies key_view(#[trigger] t[i].key) != k by {
                assert(t[i] == s[i]);
            }
            assert(key_view(s[s.len() - 1].key) != k);
        }
        if let Some(i) = key_position(s, k) {
            if key_position(t, k) is Some {
                assert(t[i] == s[i]);
                assert forall|j: int| 0 <= j < i implies key_view(#[trigger] s[j].key) != k by {
                    assert(t[j] == s[j]);
                }
            } else {
                assert forall|j: int| 0 <= j < i implies key_view(#[trigger] s[j].key) != k by {
                    assert(t[j] == s[j]);
                }
            }
        }
    }
}

/// Whether `s` holds no two leases with the same key.
pub open spec fn keys_distinct(s: Seq<DemandLease>) -> bool {
    forall|i: int, j: int| 0 <= i < j < s.len() ==> key_view(#[trigger] s[i].key) != key_view(#[trigger] s[j].key)
}

// ---------------------------------------------------------------------------
// Project availability
// ---------------------------------------------------------------------------

/// Durable desired-availability inputs for one project instance.
#[derive(Debug, PartialEq, Eq)]
pub struct ProjectAvailability {
    pub activity_generation: u64,
    pub always_on: bool,
    pub pause_through_generation: Option<u64>,
    pub demands: Vec<DemandLease>,
    pub shutdown_cooldown_until: Option<u64>,
    pub trusted_launch_path: Option<String>,
    pub last_convergence_error: Option<String>,
}

/// The abstract value of a [`ProjectAvailability`].
pub struct AvailabilityView {
    pub activity_generation: u64,
    pub always_on: bool,
    pub pause_through_generation: Option<u64>,
    pub demands: Seq<DemandLease>,
    pub shutdown_cooldown_until: Option<u64>,
    pub trusted_launch_path: Option<Seq<char>>,
    pub last_convergence_error: Option<Seq<char>>,
}

/// An optional string by its characters.
pub open spec fn opt_view(o: Option<String>) -> Option<Seq<char>> {
    match o {
        Some(s) => Some(s@),
        None => None,
    }
}

impl View for ProjectAvailability {
    type V = AvailabilityView;

    open spec fn view(&self) -> AvailabilityView {
        AvailabilityView {
            activity_generation: self.activity_generation,
            always_on: self.always_on,
            pause_through_generation: self.pause_through_generation,
            demands: self.demands@,
            shutdown_cooldown_until: self.shutdown_cooldown_until,
            trusted_launch_path: opt_view(self.trusted_launch_path),
            last_convergence_error: opt_view(self.last_convergence_error),
        }
    }
}

/// The empty record: no demands, no policy, no pause.
pub open spec fn empty_availability() -> AvailabilityView {
    AvailabilityView {
        activity_generation: 0,
        always_on: false,
        pause_through_generation: None,
        demands: Seq::empty(),
        shutdown_cooldown_until: None,
        trusted_launch_path: None,
        last_convergence_error: None,
    }
}

impl Default for ProjectAvailability {
    fn default() -> (r: Self)
        ensures
            r@ == empty_availability(),
    {
        let r = ProjectAvailability {
            activity_generation: 0,
            always_on: false,
            pause_through_generation: None,
            demands: Vec::new(),
            shutdown_cooldown_until: None,
            trusted_launch_path: None,
            last_convergence_error: None,
        };
        assert(r@.demands =~= Seq::<DemandLease>::empty());
        r
    }
}

pub(crate) fn clone_opt_string(o: &Option<String>) -> (r: Option<String>)
    ensures
        opt_view(r) == opt_view(*o),
{
    match o {
        Some(s) => Some(s.clone()),
        None => None,
    }
}

pub(crate) fn opt_string_eq(a: &Option<String>, b: &Option<String>) -> (r: bool)
    ensures
        r == (opt_view(*a) == opt_view(*b)),
{
    match (a, b) {
        (None, None) => true,
        (Some(x), Some(y)) => {
            let cx = str_chars(x.as_str());
            let cy = str_chars(y.as_str());
            compare_chars(cx.as_slice(), cy.as_slice()) == 0
        },
        _ => false,
    }
}

fn clone_leases(v: &Vec<DemandLease>) -> (r: Vec<DemandLease>)
    ensures
        r@ == v@,
{
    let mut out: Vec<DemandLease> = Vec::new();
    let mut i: usize = 0;
    while i < v.len()
        invariant
            i <= v@.len(),
            out@ == v@.take(i as int),
        decreases v@.len() - i,
    {
        out.push(v[i].clone());
        i = i + 1;
        assert(out@ =~= v@.take(i as int));
    }
    assert(v@.take(v@.len() as int) =~= v@);
    out
}

impl Clone for ProjectAvailability {
    fn clone(&self) -> (r: Self)
        ensures
            r@ == self@,
    {
        ProjectAvailability {
            activity_generation: self.activity_generation,
            always_on: self.always_on,
            pause_through_generation: self.pause_through_generation,
            demands: clone_leases(&self.demands),
            shutdown_cooldown_until: self.shutdown_cooldown_until,
            trusted_launch_path: clone_opt_string(&self.trusted_launch_path),
            last_convergence_error: clone_opt_string(&self.last_convergence_error),
        }
    }
}

/// Whether the current activity generation is covered by a manual pause.
pub open spec fn spec_is_paused(a: AvailabilityView) -> bool {
    match a.pause_through_generation {
        Some(p) => p >= a.activity_generation,
        None => false,
    }
}

/// The live demands newer than the pause barrier.
pub open spec fn spec_effective_demands(a: AvailabilityView, now: u64) -> Seq<DemandLease> {
    effective_leases(a.demands, a.pause_through_generation, now)
}

/// Desired availability: not paused, and Always On or an effective demand.
pub open spec fn spec_desired_up(a: AvailabilityView, now: u64) -> bool {
    !spec_is_paused(a) && (a.always_on || spec_effective_demands(a, now).len() > 0)
}

/// Whether a running instance may stay up until its cooldown ends.
pub open spec fn spec_shutdown_deferred(a: AvailabilityView, now: u64) -> bool {
    !spec_is_paused(a) && !spec_desired_up(a, now) && match a.shutdown_cooldown_until {
        Some(d) => d > now,
        None => false,
    }
}

/// The runtime action one snapshot calls for.
pub open spec fn spec_convergence_decision(a: AvailabilityView, now: u64) -> ConvergenceDecision {
    if spec_desired_up(a, now) {
        ConvergenceDecision::EnsureUp
    } else if !spec_is_paused(a) && (a.shutdown_cooldown_until matches Some(d) && d > now) {
        ConvergenceDecision::PreserveRuntimeUntil { deadline: a.shutdown_cooldown_until->0 }
    } else {
        ConvergenceDecision::EnsureDown
    }
}

/// Whether losing availability at `loss` arms the shutdown cooldown: nothing
/// armed yet, no Always On, no pause, and no effective demand left.
pub open spec fn arm_needed(a: AvailabilityView, now: u64, loss: Option<u64>) -> bool {
    &&& loss is Some
    &&& a.shutdown_cooldown_until is None
    &&& !a.always_on
    &&& !spec_is_paused(a)
    &&& spec_effective_demands(a, now).len() == 0
}

/// The state after arming: the cooldown ends one cooldown window after the loss.
pub open spec fn armed(a: AvailabilityView, now: u64, loss: Option<u64>) -> AvailabilityView {
    if arm_needed(a, now, loss) {
        AvailabilityView { shutdown_cooldown_until: Some((loss->0 + SHUTDOWN_COOLDOWN) as u64), ..a }
    } else {
        a
    }
}

/// Whether arming would pass the latest representable instant.
pub open spec fn arm_overflows(a: AvailabilityView, now: u64, loss: Option<u64>) -> bool {
    arm_needed(a, now, loss) && !deadline_fits(loss->0, SHUTDOWN_COOLDOWN)
}

/// An invariant failure carrying the deadline diagnostic.
pub open spec fn is_deadline_error(e: AvailabilityError) -> bool {
    e matches AvailabilityError::Invariant { reason } && reason@ == deadline_message()
}

/// Whether an explicit ensure renews the key's live, effective lease in place.
pub open spec fn renews_in_place(a: AvailabilityView, k: (DemandKind, Option<Seq<char>>), now: u64) -> bool {
    match key_position(a.demands, k) {
        Some(i) => spec_is_live(a.demands[i], now) && generation_effective(a.pause_through_generation, a.demands[i].generation),
        None => false,
    }
}

/// Whether the key holds a lease that is still live.
pub open spec fn holds_live(a: AvailabilityView, k: (DemandKind, Option<Seq<char>>), now: u64) -> bool {
    match key_position(a.demands, k) {
        Some(i) => spec_is_live(a.demands[i], now),
        None => false,
    }
}

/// The first lease with key `k` that is newer than the pause barrier.
pub open spec fn effective_key_position(s: Seq<DemandLease>, k: (DemandKind, Option<Seq<char>>), pause: Option<u64>) -> Option<int>
    decreases s.len(),
{
    if s.len() == 0 {
        None
    } else {
        match effective_key_position(s.drop_last(), k, pause) {
            Some(i) => Some(i),
            None => if key_view(s.last().key) == k && generation_effective(pause, s.last().generation) {
                Some(s.len() - 1)
            } else {
                None
            },
        }
    }
}

/// The availability loss a release of `k` reports: now, if it drops a live
/// effective lease; the latest lapsed effective deadline, if it drops a
/// lapsed one; nothing otherwise.
pub open spec fn release_loss(a: AvailabilityView, k: (DemandKind, Option<Seq<char>>), now: u64) -> Option<u64> {
    match effective_key_position(a.demands, k, a.pause_through_generation) {
        Some(i) => if spec_is_live(a.demands[i], now) {
            Some(now)
        } else {
            loss_instant(a.demands, a.pause_through_generation, now)
        },
        None => None,
    }
}

/// Whether a record read from durable state is well formed.
pub open spec fn spec_availability_valid(a: AvailabilityView) -> bool {
    &&& (a.pause_through_generation matches Some(p) ==> p <= a.activity_generation)
    &&& (a.trusted_launch_path matches Some(t) ==> !t.contains('\0'))
    &&& (a.last_convergence_error matches Some(e) ==> !all_whitespace(e))
    &&& forall|i: int| 0 <= i < a.demands.len() ==> spec_lease_valid(#[trigger] a.demands[i], a.activity_generation)
    &&& keys_distinct(a.demands)
}

/// Whether the `i`th lease breaks a rule: it is malformed or repeats a key.
pub open spec fn demand_broken(s: Seq<DemandLease>, activity_generation: u64, i: int) -> bool {
    !spec_lease_valid(s[i], activity_generation) || exists|j: int| 0 <= j < i && key_view(#[trigger] s[j].key) == key_view(s[i].key)
}

/// The diagnostic of a broken record: the first rule it breaks, in the order
/// pause, launch path, convergence error, then leases in list order.
pub open spec fn availability_error_message(a: AvailabilityView, msg: Seq<char>) -> bool {
    if a.pause_through_generation matches Some(p) && p > a.activity_generation {
        msg == "pause generation exceeds activity generation "@ + decimal(a.activity_generation as nat)
    } else if a.trusted_launch_path matches Some(t) && t.contains('\0') {
        msg == "trusted launch PATH contains a NUL byte"@
    } else if a.last_convergence_error matches Some(e) && all_whitespace(e) {
        msg == "last convergence error must not be empty"@
    } else {
        exists|i: int|
            0 <= i < a.demands.len() && #[trigger] demand_broken(a.demands, a.activity_generation, i) && (forall|j: int|
                0 <= j < i ==> !demand_broken(a.demands, a.activity_generation, j)) && msg == (if !spec_lease_valid(
                a.demands[i],
                a.activity_generation,
            ) {
                lease_error_message(a.demands[i], a.activity_generation)
            } else {
                "duplicate "@ + spec_kind_name(a.demands[i].key.kind) + " demand"@
            })
    }
}

/// The effect of an explicit semantic ensure operation.
#[derive(Debug, Clone, Copy, PartialEq, Eq, Structural)]
pub enum EnsureDemandEffect {
    /// A new owner or a renewed owner after expiry started a generation.
    Acquired,
    /// A still-live owner renewed its lease in the current generation.
    Renewed,
    /// Explicit activity advanced beyond the current pause barrier.
    Resumed,
}

/// The result of explicitly ensuring one demand.
#[derive(Debug, PartialEq, Eq)]
pub struct EnsureDemandResult {
    pub effect: EnsureDemandEffect,
    pub lease: DemandLease,
}

/// The result of passively renewing an existing demand.
#[derive(Debug, PartialEq, Eq)]
pub enum RenewDemandResult {
    Renewed(DemandLease),
    Missing,
    Expired,
}

/// The authoritative runtime action derived from one availability snapshot.
///
/// A cooldown preserves the runtime disposition that already exists: it keeps
/// a running project alive until the deadline, but never authorizes starting
/// or restoring a stopped project.
#[derive(Debug, Clone, Copy, PartialEq, Eq, Structural)]
pub enum ConvergenceDecision {
    /// Demand or Always On policy requires the project to be running.
    EnsureUp,
    /// Keep the current runtime disposition until the cooldown deadline.
    PreserveRuntimeUntil {
        /// The absolute wall-clock deadline for the next convergence pass.
        deadline: u64,
    },
    /// The project should be stopped, including while explicitly paused.
    EnsureDown,
}

/// A load, transition, or persistence failure in authoritative availability state.
#[derive(Debug)]
pub enum AvailabilityError {
    Io { operation: String, path: String, reason: String },
    UnsupportedVersion { path: String, found: u64, expected: u32 },
    InvalidData { path: String, reason: String },
    GenerationExhausted { current: u64 },
    Invariant { reason: String },
    BatchInstanceMismatch { batch_instance: ProjectInstanceId, store_instance: ProjectInstanceId },
    BatchBaseMismatch { path: String },
    PublishedNotDurable { path: String, reason: String },
}

impl ProjectAvailability {
    pub fn activity_generation(&self) -> (r: u64)
        ensures
            r == self.activity_generation,
    {
        self.activity_generation
    }

    pub fn always_on(&self) -> (r: bool)
        ensures
            r == self.always_on,
    {
        self.always_on
    }

    pub fn pause_through_generation(&self) -> (r: Option<u64>)
        ensures
            r == self.pause_through_generation,
    {
        self.pause_through_generation
    }

    pub fn demands(&self) -> (r: &[DemandLease])
        ensures
            r@ == self.demands@,
    {
        self.demands.as_slice()
    }

    pub fn shutdown_cooldown_until(&self) -> (r: Option<u64>)
        ensures
            r == self.shutdown_cooldown_until,
    {
        self.shutdown_cooldown_until
    }

    pub fn trusted_launch_path(&self) -> (r: Option<&str>)
        ensures
            match r {
                Some(p) => self@.trusted_launch_path == Some(p@),
                None => self@.trusted_launch_path is None,
            },
    {
        match &self.trusted_launch_path {
            Some(p) => Some(p.as_str()),
            None => None,
        }
    }

    pub fn last_convergence_error(&self) -> (r: Option<&str>)
        ensures
            match r {
                Some(e) => self@.last_convergence_error == Some(e@),
                None => self@.last_convergence_error is None,
            },
    {
        match &self.last_convergence_error {
            Some(e) => Some(e.as_str()),
            None => None,
        }
    }

    /// Whether the current activity generation is covered by a manual pause.
    pub fn is_paused(&self) -> (r: bool)
        ensures
            r == spec_is_paused(self@),
    {
        match self.pause_through_generation {
            Some(p) => p >= self.activity_generation,
            None => false,
        }
    }

    /// Whether a lease generation is newer than the pause barrier.
    pub fn generation_is_effective(&self, generation: u64) -> (r: bool)
        ensures
            r == generation_effective(self.pause_through_generation, generation),
    {
        match self.pause_through_generation {
            Some(pause) => generation > pause,
            None => true,
        }
    }

    /// The demands that remain live at `now`, in order.
    pub fn live_demands_at(&self, now: u64) -> (r: Vec<DemandLease>)
        ensures
            r@ == live_leases(self.demands@, now),
    {
        let mut out: Vec<DemandLease> = Vec::new();
        let mut i: usize = 0;
        proof {
            assert(self.demands@.take(0) =~= Seq::<DemandLease>::empty());
        }
        while i < self.demands.len()
            invariant
                i <= self.demands@.len(),
                out@ == live_leases(self.demands@.take(i as int), now),
            decreases self.demands@.len() - i,
        {
            proof {
                assert(self.demands@.take(i + 1).drop_last() =~= self.demands@.take(i as int));
                assert(self.demands@.take(i + 1).last() == self.demands@[i as int]);
            }
            if self.demands[i].is_live_at(now) {
                out.push(self.demands[i].clone());
            }
            i = i + 1;
        }
        proof {
            assert(self.demands@.take(self.demands@.len() as int) =~= self.demands@);
        }
        out
    }

    /// The live demands newer than the last pause barrier, in order.
    ///
    /// A passive renewal may extend a suppressed lease, but only explicit
    /// semantic activity can move that owner into a later generation.
    pub fn effective_demands_at(&self, now: u64) -> (r: Vec<DemandLease>)
        ensures
            r@ == spec_effective_demands(self@, now),
    {
        let mut out: Vec<DemandLease> = Vec::new();
        let mut i: usize = 0;
        proof {
            assert(self.demands@.take(0) =~= Seq::<DemandLease>::empty());
        }
        while i < self.demands.len()
            invariant
                i <= self.demands@.len(),
                out@ == effective_leases(self.demands@.take(i as int), self.pause_through_generation, now),
            decreases self.demands@.len() - i,
        {
            proof {
                assert(self.demands@.take(i + 1).drop_last() =~= self.demands@.take(i as int));
                assert(self.demands@.take(i + 1).last() == self.demands@[i as int]);
            }
            if self.demands[i].is_live_at(now) && self.generation_is_effective(self.demands[i].generation) {
                out.push(self.demands[i].clone());
            }
            i = i + 1;
        }
        proof {
            assert(self.demands@.take(self.demands@.len() as int) =~= self.demands@);
        }
        out
    }

    fn has_effective_demand(&self, now: u64) -> (r: bool)
        ensures
            r == (spec_effective_demands(self@, now).len() > 0),
    {
        self.effective_demands_at(now).len() > 0
    }

    /// Derive desired availability without inspecting runtime process state.
    pub fn desired_up_at(&self, now: u64) -> (r: bool)
        ensures
            r == spec_desired_up(self@, now),
    {
        !self.is_paused() && (self.always_on || self.has_effective_demand(now))
    }

    /// Whether an already-running instance may remain alive until cooldown ends.
    ///
    /// This is a convergence deferral, not desired availability. In
    /// particular, a cooldown never authorizes starting or restoring a stopped
    /// instance after daemon restart.
    pub fn shutdown_deferred_at(&self, now: u64) -> (r: bool)
        ensures
            r == spec_shutdown_deferred(self@, now),
    {
        !self.is_paused() && !self.desired_up_at(now) && match self.shutdown_cooldown_until {
            Some(d) => d > now,
            None => false,
        }
    }

    /// The runtime action this snapshot calls for at `now`.
    pub fn convergence_decision_at(&self, now: u64) -> (r: ConvergenceDecision)
        ensures
            r == spec_convergence_decision(self@, now),
    {
        if self.desired_up_at(now) {
            return ConvergenceDecision::EnsureUp;
        }
        if !self.is_paused() {
            if let Some(deadline) = self.shutdown_cooldown_until {
                if deadline > now {
                    return ConvergenceDecision::PreserveRuntimeUntil { deadline };
                }
            }
        }
        ConvergenceDecision::EnsureDown
    }

    /// The latest deadline among lapsed leases newer than the pause barrier.
    fn loss_instant_at(&self, now: u64) -> (r: Option<u64>)
        ensures
            r == loss_instant(self.demands@, self.pause_through_generation, now),
    {
        let mut best: Option<u64> = None;
        let mut i: usize = 0;
        proof {
            assert(self.demands@.take(0) =~= Seq::<DemandLease>::empty());
        }
        while i < self.demands.len()
            invariant
                i <= self.demands@.len(),
                best == loss_instant(self.demands@.take(i as int), self.pause_through_generation, now),
            decreases self.demands@.len() - i,
        {
            proof {
                assert(self.demands@.take(i + 1).drop_last() =~= self.demands@.take(i as int));
                assert(self.demands@.take(i + 1).last() == self.demands@[i as int]);
            }
            let d = &self.demands[i];
            if self.generation_is_effective(d.generation) && !d.is_live_at(now) {
                best = match (best, d.expires_at) {
                    (Some(a), Some(b)) => Some(if a > b { a } else { b }),
                    (None, Some(b)) => Some(b),
                    (_, None) => best,
                };
            }
            i = i + 1;
        }
        proof {
            assert(self.demands@.take(self.demands@.len() as int) =~= self.demands@);
        }
        best
    }

    /// Arm the shutdown cooldown when availability was lost at `loss` and
    /// nothing else keeps the instance up.
    fn arm_shutdown_cooldown_if_idle(&mut self, now: u64, loss: Option<u64>) -> (r: Result<(), AvailabilityError>)
        ensures
            r is Ok <==> !arm_overflows(old(self)@, now, loss),
            r is Ok ==> final(self)@ == armed(old(self)@, now, loss),
            r matches Err(e) ==> is_deadline_error(e) && final(self)@ == old(self)@,
    {
        let at = match loss {
            Some(at) => at,
            None => return Ok(()),
        };
        if self.shutdown_cooldown_until.is_some() || self.always_on || self.is_paused() || self.has_effective_demand(now) {
            return Ok(());
        }
        match deadline(at, SHUTDOWN_COOLDOWN) {
            Ok(until) => {
                self.shutdown_cooldown_until = Some(until);
                Ok(())
            },
            Err(reason) => Err(AvailabilityError::Invariant { reason }),
        }
    }
}

/// Why a transition is refused.
pub enum TransitionFailure {
    /// The activity generation cannot be advanced.
    GenerationExhausted { current: u64 },
    /// A deadline would pass the latest representable instant.
    Deadline,
}

/// Whether an error reports a refused transition.
pub open spec fn failure_is(e: AvailabilityError, f: TransitionFailure) -> bool {
    match f {
        TransitionFailure::GenerationExhausted { current } => e == (AvailabilityError::GenerationExhausted { current }),
        TransitionFailure::Deadline => is_deadline_error(e),
    }
}

/// Arm the cooldown, or refuse when its end is not representable.
pub open spec fn spec_arm(a: AvailabilityView, now: u64, loss: Option<u64>) -> Result<AvailabilityView, TransitionFailure> {
    if arm_overflows(a, now, loss) {
        Err(TransitionFailure::Deadline)
    } else {
        Ok(armed(a, now, loss))
    }
}

/// The lease list with `lease` in place of any lease of its key, ordered by key.
pub open spec fn with_lease(s: Seq<DemandLease>, lease: DemandLease) -> Seq<DemandLease> {
    sorted_by_key(without_key(s, key_view(lease.key)).push(lease))
}

/// The record after an explicit ensure of `key` at `now`.
pub open spec fn spec_ensure(a: AvailabilityView, key: DemandKey, now: u64) -> Result<AvailabilityView, TransitionFailure> {
    let k = key_view(key);
    if renews_in_place(a, k, now) {
        let i = key_position(a.demands, k)->0;
        if renewal_fits(a.demands[i], now) {
            Ok(
                AvailabilityView {
                    demands: a.demands.update(i, renewed_lease(a.demands[i], now)),
                    shutdown_cooldown_until: None,
                    ..a
                },
            )
        } else {
            Err(TransitionFailure::Deadline)
        }
    } else if a.activity_generation == LATEST_INSTANT {
        Err(TransitionFailure::GenerationExhausted { current: a.activity_generation })
    } else if !deadline_fits(now, spec_lease_duration(key.kind)) {
        Err(TransitionFailure::Deadline)
    } else {
        let lease = fresh_lease(key, (a.activity_generation + 1) as u64, now);
        Ok(
            AvailabilityView {
                activity_generation: (a.activity_generation + 1) as u64,
                demands: with_lease(a.demands, lease),
                shutdown_cooldown_until: None,
                ..a
            },
        )
    }
}

/// What an accepted explicit ensure reports.
pub open spec fn ensure_result(a: AvailabilityView, key: DemandKey, now: u64) -> EnsureDemandResult {
    let k = key_view(key);
    if renews_in_place(a, k, now) {
        let i = key_position(a.demands, k)->0;
        EnsureDemandResult { effect: EnsureDemandEffect::Renewed, lease: renewed_lease(a.demands[i], now) }
    } else {
        EnsureDemandResult {
            effect: if spec_is_paused(a) || holds_live(a, k, now) {
                EnsureDemandEffect::Resumed
            } else {
                EnsureDemandEffect::Acquired
            },
            lease: fresh_lease(key, (a.activity_generation + 1) as u64, now),
        }
    }
}

/// The record after a passive renewal of `k` at `now`.
pub open spec fn spec_renew(a: AvailabilityView, k: (DemandKind, Option<Seq<char>>), now: u64) -> Result<
    AvailabilityView,
    TransitionFailure,
> {
    match key_position(a.demands, k) {
        None => Ok(a),
        Some(i) => if !spec_is_live(a.demands[i], now) {
            spec_arm(
                AvailabilityView { demands: a.demands.remove(i), ..a },
                now,
                loss_instant(a.demands, a.pause_through_generation, now),
            )
        } else {
            spec_revalidate(a, k, now)
        },
    }
}

/// What an accepted passive renewal reports.
pub open spec fn renew_result(a: AvailabilityView, k: (DemandKind, Option<Seq<char>>), now: u64) -> RenewDemandResult {
    match key_position(a.demands, k) {
        None => RenewDemandResult::Missing,
        Some(i) => if !spec_is_live(a.demands[i], now) {
            RenewDemandResult::Expired
        } else {
            RenewDemandResult::Renewed(renewed_lease(a.demands[i], now))
        },
    }
}

/// The record after revalidating `k` at `now`, live or not.
pub open spec fn spec_revalidate(a: AvailabilityView, k: (DemandKind, Option<Seq<char>>), now: u64) -> Result<
    AvailabilityView,
    TransitionFailure,
> {
    match key_position(a.demands, k) {
        None => Ok(a),
        Some(i) => if !renewal_fits(a.demands[i], now) {
            Err(TransitionFailure::Deadline)
        } else {
            let lease = renewed_lease(a.demands[i], now);
            Ok(
                AvailabilityView {
                    demands: a.demands.update(i, lease),
                    shutdown_cooldown_until: if generation_effective(a.pause_through_generation, lease.generation) {
                        None
                    } else {
                        a.shutdown_cooldown_until
                    },
                    ..a
                },
            )
        },
    }
}

/// What an accepted revalidation reports.
pub open spec fn revalidate_result(a: AvailabilityView, k: (DemandKind, Option<Seq<char>>), now: u64) -> RenewDemandResult {
    match key_position(a.demands, k) {
        None => RenewDemandResult::Missing,
        Some(i) => RenewDemandResult::Renewed(renewed_lease(a.demands[i], now)),
    }
}

/// The acquisition instant an import uses: never later than `effective_at`.
pub open spec fn import_acquired(acquired_at: u64, effective_at: u64) -> u64 {
    if acquired_at < effective_at {
        acquired_at
    } else {
        effective_at
    }
}

/// Whether an import takes effect: the key is new and its lease window,
/// counted from acquisition, outlasts `effective_at`.
pub open spec fn import_takes_effect(a: AvailabilityView, key: DemandKey, acquired_at: u64, effective_at: u64) -> bool {
    let acquired = import_acquired(acquired_at, effective_at);
    key_position(a.demands, key_view(key)) is None && deadline_fits(acquired, spec_lease_duration(key.kind)) && acquired
        + spec_lease_duration(key.kind) > effective_at
}

/// The record after importing a legacy hold.
pub open spec fn spec_import(a: AvailabilityView, key: DemandKey, acquired_at: u64, effective_at: u64) -> Result<
    AvailabilityView,
    TransitionFailure,
> {
    let acquired = import_acquired(acquired_at, effective_at);
    if key_position(a.demands, key_view(key)) is Some {
        Ok(a)
    } else if !deadline_fits(acquired, spec_lease_duration(key.kind)) {
        Err(TransitionFailure::Deadline)
    } else if acquired + spec_lease_duration(key.kind) <= effective_at {
        Ok(a)
    } else if a.activity_generation == LATEST_INSTANT {
        Err(TransitionFailure::GenerationExhausted { current: a.activity_generation })
    } else {
        let lease = fresh_lease(key, (a.activity_generation + 1) as u64, acquired);
        Ok(
            AvailabilityView {
                activity_generation: (a.activity_generation + 1) as u64,
                demands: with_lease(a.demands, lease),
                shutdown_cooldown_until: None,
                ..a
            },
        )
    }
}

/// The record after releasing `k` at `now`.
pub open spec fn spec_release(a: AvailabilityView, k: (DemandKind, Option<Seq<char>>), now: u64) -> Result<
    AvailabilityView,
    TransitionFailure,
> {
    spec_arm(AvailabilityView { demands: without_key(a.demands, k), ..a }, now, release_loss(a, k, now))
}

/// The record after dropping every lease that lapsed by `now`.
pub open spec fn spec_expire(a: AvailabilityView, now: u64) -> Result<AvailabilityView, TransitionFailure> {
    spec_arm(
        AvailabilityView { demands: live_leases(a.demands, now), ..a },
        now,
        loss_instant(a.demands, a.pause_through_generation, now),
    )
}

/// The record after enabling or disabling Always On at `now`.
pub open spec fn spec_set_always_on(a: AvailabilityView, enabled: bool, now: u64) -> Result<AvailabilityView, TransitionFailure> {
    if enabled {
        let activation = !a.always_on || spec_is_paused(a);
        if activation && a.activity_generation == LATEST_INSTANT {
            Err(TransitionFailure::GenerationExhausted { current: a.activity_generation })
        } else {
            Ok(
                AvailabilityView {
                    activity_generation: if activation {
                        (a.activity_generation + 1) as u64
                    } else {
                        a.activity_generation
                    },
                    always_on: true,
                    shutdown_cooldown_until: None,
                    ..a
                },
            )
        }
    } else if !a.always_on {
        Ok(a)
    } else {
        spec_arm(AvailabilityView { always_on: false, ..a }, now, Some(now))
    }
}

/// The record after a pause through the current generation.
pub open spec fn spec_pause(a: AvailabilityView) -> AvailabilityView {
    AvailabilityView { pause_through_generation: Some(a.activity_generation), shutdown_cooldown_until: None, ..a }
}

impl ProjectAvailability {
    /// Explicitly acquire, renew, or resume one demand.
    ///
    /// A live lease newer than the pause barrier is renewed in place;
    /// otherwise the demand starts a new activity generation, which moves it
    /// beyond any pause.
    pub fn ensure_demand(&mut self, key: DemandKey, now: u64) -> (r: Result<EnsureDemandResult, AvailabilityError>)
        ensures
            match spec_ensure(old(self)@, key, now) {
                Ok(b) => final(self)@ == b && r == Ok::<EnsureDemandResult, AvailabilityError>(ensure_result(old(self)@, key, now)),
                Err(f) => final(self)@ == old(self)@ && (r matches Err(e) && failure_is(e, f)),
            },
    {
        let ghost a = self@;
        let ghost k = key_view(key);
        let pos = find_key(&self.demands, &key);
        let mut live = false;
        let mut effective = false;
        if let Some(i) = pos {
            live = self.demands[i].is_live_at(now);
            effective = live && self.generation_is_effective(self.demands[i].generation);
        }
        if effective {
            let i = match pos {
                Some(i) => i,
                None => 0,
            };
            let mut lease = self.demands[i].clone();
            match lease.renew(now) {
                Ok(()) => {},
                Err(reason) => return Err(AvailabilityError::Invariant { reason }),
            }
            self.demands.set(i, lease.clone());
            self.shutdown_cooldown_until = None;
            return Ok(EnsureDemandResult { effect: EnsureDemandEffect::Renewed, lease });
        }
        let crossed_pause_barrier = self.is_paused() || live;
        if self.activity_generation == LATEST_INSTANT {
            return Err(AvailabilityError::GenerationExhausted { current: self.activity_generation });
        }
        let generation = self.activity_generation + 1;
        let lease = match DemandLease::new(key.clone(), generation, now) {
            Ok(lease) => lease,
            Err(reason) => return Err(AvailabilityError::Invariant { reason }),
        };
        let mut rest = remove_key(&self.demands, &key);
        rest.push(lease.clone());
        self.demands = sort_by_key(rest);
        self.activity_generation = generation;
        self.shutdown_cooldown_until = None;
        let effect = if crossed_pause_barrier {
            EnsureDemandEffect::Resumed
        } else {
            EnsureDemandEffect::Acquired
        };
        Ok(EnsureDemandResult { effect, lease })
    }

    /// Passively renew a live demand without advancing or resuming a generation.
    ///
    /// A lapsed lease is dropped instead, arming the cooldown from the latest
    /// lapsed effective deadline when nothing else keeps the instance up.
    pub fn renew_demand(&mut self, key: &DemandKey, now: u64) -> (r: Result<RenewDemandResult, AvailabilityError>)
        ensures
            match spec_renew(old(self)@, key_view(*key), now) {
                Ok(b) => final(self)@ == b && r == Ok::<RenewDemandResult, AvailabilityError>(
                    renew_result(old(self)@, key_view(*key), now),
                ),
                Err(f) => r matches Err(e) && failure_is(e, f),
            },
    {
        let i = match find_key(&self.demands, key) {
            Some(i) => i,
            None => return Ok(RenewDemandResult::Missing),
        };
        if !self.demands[i].is_live_at(now) {
            let loss = self.loss_instant_at(now);
            self.demands.remove(i);
            self.arm_shutdown_cooldown_if_idle(now, loss)?;
            return Ok(RenewDemandResult::Expired);
        }
        let mut lease = self.demands[i].clone();
        match lease.renew(now) {
            Ok(()) => {},
            Err(reason) => return Err(AvailabilityError::Invariant { reason }),
        }
        self.demands.set(i, lease.clone());
        if self.generation_is_effective(lease.generation) {
            self.shutdown_cooldown_until = None;
        }
        Ok(RenewDemandResult::Renewed(lease))
    }

    /// Revalidate a process-proven demand at its existing generation, even
    /// when its lease deadline elapsed.
    pub fn revalidate_demand(&mut self, key: &DemandKey, now: u64) -> (r: Result<RenewDemandResult, AvailabilityError>)
        ensures
            match spec_revalidate(old(self)@, key_view(*key), now) {
                Ok(b) => final(self)@ == b && r == Ok::<RenewDemandResult, AvailabilityError>(
                    revalidate_result(old(self)@, key_view(*key), now),
                ),
                Err(f) => final(self)@ == old(self)@ && (r matches Err(e) && failure_is(e, f)),
            },
    {
        let i = match find_key(&self.demands, key) {
            Some(i) => i,
            None => return Ok(RenewDemandResult::Missing),
        };
        let mut lease = self.demands[i].clone();
        match lease.renew(now) {
            Ok(()) => {},
            Err(reason) => return Err(AvailabilityError::Invariant { reason }),
        }
        self.demands.set(i, lease.clone());
        if self.generation_is_effective(lease.generation) {
            self.shutdown_cooldown_until = None;
        }
        Ok(RenewDemandResult::Renewed(lease))
    }

    /// Import one legacy hold with its original acquisition time.
    ///
    /// A key already present, or a hold whose lease window ended by
    /// `effective_at`, is ignored; otherwise the hold starts a new generation.
    pub fn import_demand(&mut self, key: DemandKey, acquired_at: u64, effective_at: u64) -> (r: Result<
        bool,
        AvailabilityError,
    >)
        ensures
            match spec_import(old(self)@, key, acquired_at, effective_at) {
                Ok(b) => final(self)@ == b && r == Ok::<bool, AvailabilityError>(
                    import_takes_effect(old(self)@, key, acquired_at, effective_at),
                ),
                Err(f) => final(self)@ == old(self)@ && (r matches Err(e) && failure_is(e, f)),
            },
    {
        if find_key(&self.demands, &key).is_some() {
            return Ok(false);
        }
        proof {
            lemma_key_position_none(self.demands@, key_view(key));
        }
        let acquired = if acquired_at < effective_at { acquired_at } else { effective_at };
        let expires_at = match deadline(acquired, key.kind.lease_duration()) {
            Ok(t) => t,
            Err(reason) => return Err(AvailabilityError::Invariant { reason }),
        };
        if expires_at <= effective_at {
            return Ok(false);
        }
        if self.activity_generation == LATEST_INSTANT {
            return Err(AvailabilityError::GenerationExhausted { current: self.activity_generation });
        }
        let generation = self.activity_generation + 1;
        let lease = match DemandLease::new(key, generation, acquired) {
            Ok(lease) => lease,
            Err(reason) => return Err(AvailabilityError::Invariant { reason }),
        };
        let mut rest = clone_leases(&self.demands);
        proof {
            lemma_without_absent_key(self.demands@, key_view(lease.key));
        }
        rest.push(lease);
        self.demands = sort_by_key(rest);
        self.activity_generation = generation;
        self.shutdown_cooldown_until = None;
        Ok(true)
    }
}

/// Removing an absent key changes nothing.
proof fn lemma_without_absent_key(s: Seq<DemandLease>, k: (DemandKind, Option<Seq<char>>))
    requires
        forall|i: int| 0 <= i < s.len() ==> key_view(#[trigger] s[i].key) != k,
    ensures
        without_key(s, k) == s,
    decreases s.len(),
{
    if s.len() > 0 {
        let t = s.drop_last();
        assert forall|i: int| 0 <= i < t.len() implies key_view(#[trigger] t[i].key) != k by {
            assert(t[i] == s[i]);
        }
        lemma_without_absent_key(t, k);
        assert(key_view(s[s.len() - 1].key) != k);
        assert(t.push(s.last()) =~= s);
    }
}

/// The position of the first lease with key `k` newer than the pause barrier.
fn find_effective_key(v: &Vec<DemandLease>, key: &DemandKey, pause: Option<u64>) -> (r: Option<usize>)
    ensures
        match r {
            Some(i) => effective_key_position(v@, key_view(*key), pause) == Some(i as int) && i < v@.len(),
            None => effective_key_position(v@, key_view(*key), pause) is None,
        },
{
    let ghost k = key_view(*key);
    let mut i: usize = 0;
    proof {
        assert(v@.take(0) =~= Seq::<DemandLease>::empty());
    }
    while i < v.len()
        invariant
            i <= v@.len(),
            k == key_view(*key),
            effective_key_position(v@.take(i as int), k, pause) is None,
        decreases v@.len() - i,
    {
        proof {
            assert(v@.take(i + 1).drop_last() =~= v@.take(i as int));
            assert(v@.take(i + 1).last() == v@[i as int]);
        }
        let effective = match pause {
            Some(p) => v[i].generation > p,
            None => true,
        };
        if same_key(&v[i].key, key) && effective {
            proof {
                assert(effective_key_position(v@.take(i as int + 1), k, pause) == Some(i as int));
                lemma_effective_key_position_prefix(v@, i as int + 1, k, pause);
            }
            return Some(i);
        }
        i = i + 1;
    }
    proof {
        assert(v@.take(v@.len() as int) =~= v@);
    }
    None
}

proof fn lemma_effective_key_position_prefix(s: Seq<DemandLease>, n: int, k: (DemandKind, Option<Seq<char>>), pause: Option<u64>)
    requires
        0 <= n <= s.len(),
        effective_key_position(s.take(n), k, pause) is Some,
    ensures
        effective_key_position(s, k, pause) == effective_key_position(s.take(n), k, pause),
    decreases s.len() - n,
{
    if n < s.len() {
        assert(s.take(n + 1).drop_last() =~= s.take(n));
        lemma_effective_key_position_prefix(s, n + 1, k, pause);
    } else {
        assert(s.take(n) =~= s);
    }
}

impl ProjectAvailability {
    /// Release one owner while preserving every other demand.
    ///
    /// Returns whether the key held a lease. Dropping an effective lease arms
    /// the cooldown when nothing else keeps the instance up: from now if the
    /// lease was live, from the latest lapsed effective deadline otherwise.
    pub fn release_demand(&mut self, key: &DemandKey, now: u64) -> (r: Result<bool, AvailabilityError>)
        ensures
            match spec_release(old(self)@, key_view(*key), now) {
                Ok(b) => final(self)@ == b && r == Ok::<bool, AvailabilityError>(
                    key_position(old(self)@.demands, key_view(*key)) is Some,
                ),
                Err(f) => r matches Err(e) && failure_is(e, f),
            },
    {
        let loss = match find_effective_key(&self.demands, key, self.pause_through_generation) {
            Some(i) => if self.demands[i].is_live_at(now) {
                Some(now)
            } else {
                self.loss_instant_at(now)
            },
            None => None,
        };
        let released = find_key(&self.demands, key).is_some();
        self.demands = remove_key(&self.demands, key);
        self.arm_shutdown_cooldown_if_idle(now, loss)?;
        Ok(released)
    }

    /// Remove every demand whose absolute deadline has been reached, and
    /// return how many were removed.
    pub fn expire_demands(&mut self, now: u64) -> (r: Result<usize, AvailabilityError>)
        ensures
            match spec_expire(old(self)@, now) {
                Ok(b) => final(self)@ == b && r == Ok::<usize, AvailabilityError>(
                    (old(self)@.demands.len() - live_leases(old(self)@.demands, now).len()) as usize,
                ),
                Err(f) => r matches Err(e) && failure_is(e, f),
            },
    {
        let loss = self.loss_instant_at(now);
        let previous = self.demands.len();
        self.demands = self.live_demands_at(now);
        proof {
            lemma_live_leases_len(old(self).demands@, now);
        }
        let expired = previous - self.demands.len();
        self.arm_shutdown_cooldown_if_idle(now, loss)?;
        Ok(expired)
    }

    /// Enable or disable durable Always On policy; returns whether state changed.
    ///
    /// Enabling while disabled or paused is explicit activity and advances
    /// the generation beyond the pause barrier; enabling clears any cooldown.
    /// Disabling arms the normal shutdown cooldown from `now` when no live
    /// demand remains.
    pub fn set_always_on(&mut self, enabled: bool, now: u64) -> (r: Result<bool, AvailabilityError>)
        ensures
            match spec_set_always_on(old(self)@, enabled, now) {
                Ok(b) => final(self)@ == b && r == Ok::<bool, AvailabilityError>(
                    if enabled {
                        !old(self)@.always_on || spec_is_paused(old(self)@) || old(self)@.shutdown_cooldown_until is Some
                    } else {
                        old(self)@.always_on
                    },
                ),
                Err(f) => r matches Err(e) && failure_is(e, f),
            },
    {
        if enabled {
            let activation_required = !self.always_on || self.is_paused();
            let cooldown_cleared = self.shutdown_cooldown_until.is_some();
            self.shutdown_cooldown_until = None;
            if activation_required {
                if self.activity_generation == LATEST_INSTANT {
                    return Err(AvailabilityError::GenerationExhausted { current: self.activity_generation });
                }
                self.activity_generation = self.activity_generation + 1;
            }
            let changed = !self.always_on || activation_required || cooldown_cleared;
            self.always_on = true;
            return Ok(changed);
        }
        if !self.always_on {
            return Ok(false);
        }
        self.always_on = false;
        self.arm_shutdown_cooldown_if_idle(now, Some(now))?;
        Ok(true)
    }

    /// Pause the project through its current activity generation; returns
    /// whether state changed.
    pub fn pause_project(&mut self) -> (r: bool)
        ensures
            r == (old(self)@.pause_through_generation != Some(old(self)@.activity_generation)
                || old(self)@.shutdown_cooldown_until is Some),
            final(self)@ == spec_pause(old(self)@),
    {
        let pause = Some(self.activity_generation);
        let changed = self.pause_through_generation != pause || self.shutdown_cooldown_until.is_some();
        self.pause_through_generation = pause;
        self.shutdown_cooldown_until = None;
        changed
    }

    /// Replace or clear the trusted launch `PATH`; returns whether it changed.
    pub fn set_trusted_launch_path(&mut self, path: Option<String>) -> (r: bool)
        ensures
            r == (old(self)@.trusted_launch_path != opt_view(path)),
            final(self)@ == (AvailabilityView { trusted_launch_path: opt_view(path), ..old(self)@ }),
    {
        if opt_string_eq(&self.trusted_launch_path, &path) {
            return false;
        }
        self.trusted_launch_path = path;
        true
    }

    /// Replace or clear the last convergence failure; returns whether it changed.
    pub fn set_last_convergence_error(&mut self, error: Option<String>) -> (r: bool)
        ensures
            r == (old(self)@.last_convergence_error != opt_view(error)),
            final(self)@ == (AvailabilityView { last_convergence_error: opt_view(error), ..old(self)@ }),
    {
        if opt_string_eq(&self.last_convergence_error, &error) {
            return false;
        }
        self.last_convergence_error = error;
        true
    }
}

fn contains_nul(s: &str) -> (r: bool)
    ensures
        r == s@.contains('\0'),
{
    let chars = str_chars(s);
    let mut i: usize = 0;
    while i < chars.len()
        invariant
            i <= chars@.len(),
            chars@ == s@,
            forall|j: int| 0 <= j < i ==> chars@[j] != '\0',
        decreases chars@.len() - i,
    {
        if chars[i] == '\0' {
            assert(s@[i as int] == '\0');
            return true;
        }
        i = i + 1;
    }
    false
}

impl ProjectAvailability {
    /// Check a record read from durable state.
    pub fn validate(&self) -> (r: Result<(), String>)
        ensures
            r is Ok <==> spec_availability_valid(self@),
            r matches Err(msg) ==> availability_error_message(self@, msg@),
    {
        let ghost a = self@;
        if let Some(pause) = self.pause_through_generation {
            if pause > self.activity_generation {
                let mut msg = String::new();
                push_str(&mut msg, "pause generation exceeds activity generation ");
                push_decimal(&mut msg, self.activity_generation);
                return Err(msg);
            }
        }
        if let Some(path) = &self.trusted_launch_path {
            if contains_nul(path.as_str()) {
                return Err(String::from_str("trusted launch PATH contains a NUL byte"));
            }
        }
        if let Some(error) = &self.last_convergence_error {
            if is_blank(error.as_str()) {
                return Err(String::from_str("last convergence error must not be empty"));
            }
        }
        let mut i: usize = 0;
        while i < self.demands.len()
            invariant
                i <= self.demands@.len(),
                a == self@,
                !(a.pause_through_generation matches Some(p) && p > a.activity_generation),
                !(a.trusted_launch_path matches Some(t) && t.contains('\0')),
                !(a.last_convergence_error matches Some(e) && all_whitespace(e)),
                forall|j: int| 0 <= j < i ==> !demand_broken(a.demands, a.activity_generation, j),
            decreases self.demands@.len() - i,
        {
            match self.demands[i].validate(self.activity_generation) {
                Ok(()) => {},
                Err(msg) => {
                    proof {
                        assert(demand_broken(a.demands, a.activity_generation, i as int));
                    }
                    return Err(msg);
                },
            }
            let mut j: usize = 0;
            while j < i
                invariant
                    j <= i < self.demands@.len(),
                    a == self@,
                    !(a.pause_through_generation matches Some(p) && p > a.activity_generation),
                    !(a.trusted_launch_path matches Some(t) && t.contains('\0')),
                    !(a.last_convergence_error matches Some(e) && all_whitespace(e)),
                    forall|m: int| 0 <= m < i ==> !demand_broken(a.demands, a.activity_generation, m),
                    spec_lease_valid(a.demands[i as int], a.activity_generation),
                    forall|m: int| 0 <= m < j ==> key_view(#[trigger] a.demands[m].key) != key_view(a.demands[i as int].key),
                decreases i - j,
            {
                if same_key(&self.demands[j].key, &self.demands[i].key) {
                    proof {
                        assert(demand_broken(a.demands, a.activity_generation, i as int));
                    }
                    let mut msg = String::new();
                    push_str(&mut msg, "duplicate ");
                    push_str(&mut msg, self.demands[i].key.kind.name());
                    push_str(&mut msg, " demand");
                    return Err(msg);
                }
                j = j + 1;
            }
            proof {
                assert(!demand_broken(a.demands, a.activity_generation, i as int));
            }
            i = i + 1;
        }
        proof {
            assert forall|x: int, y: int| 0 <= x < y < a.demands.len() implies key_view(#[trigger] a.demands[x].key) != key_view(
                #[trigger] a.demands[y].key,
            ) by {
                assert(!demand_broken(a.demands, a.activity_generation, y));
            }
            assert forall|x: int| 0 <= x < a.demands.len() implies spec_lease_valid(#[trigger] a.demands[x], a.activity_generation) by {
                assert(!demand_broken(a.demands, a.activity_generation, x));
            }
        }
        Ok(())
    }
}

// ---------------------------------------------------------------------------
// Ordered batches
// ---------------------------------------------------------------------------

/// One ordered mutation in an availability transaction.
///
/// Batch operations are evaluated at the enclosing batch's fixed
/// [`AvailabilityBatch::effective_at`] time. A prepared batch stores the exact
/// resulting state, so journal replay publishes that state instead of
/// re-evaluating these operations against a later snapshot.
#[derive(Debug, PartialEq, Eq)]
pub enum AvailabilityBatchOperation {
    /// Materialize an empty authoritative record when none exists yet.
    Initialize,
    /// Explicitly acquire, renew, or resume one semantic demand.
    EnsureDemand(DemandKey),
    /// Passively renew a live demand without crossing a pause barrier.
    RenewDemand(DemandKey),
    /// Revalidate a process-proven demand at its existing generation, even
    /// when its lease deadline elapsed.
    RevalidateDemand(DemandKey),
    /// Import one legacy hold with its original acquisition time.
    ImportDemand { key: DemandKey, acquired_at: u64 },
    /// Release one demand owner.
    ReleaseDemand(DemandKey),
    /// Enable or disable durable Always On policy.
    SetAlwaysOn(bool),
    /// Pause the project through the generation current at this point in the
    /// ordered batch.
    PauseProject,
    /// Replace or clear trusted launch context.
    SetTrustedLaunchPath(Option<String>),
    /// Remove the authoritative availability record.
    Retire,
}

impl Clone for AvailabilityBatchOperation {
    fn clone(&self) -> (r: Self)
        ensures
            r == *self,
    {
        match self {
            AvailabilityBatchOperation::Initialize => AvailabilityBatchOperation::Initialize,
            AvailabilityBatchOperation::EnsureDemand(k) => AvailabilityBatchOperation::EnsureDemand(k.clone()),
            AvailabilityBatchOperation::RenewDemand(k) => AvailabilityBatchOperation::RenewDemand(k.clone()),
            AvailabilityBatchOperation::RevalidateDemand(k) => AvailabilityBatchOperation::RevalidateDemand(k.clone()),
            AvailabilityBatchOperation::ImportDemand { key, acquired_at } => AvailabilityBatchOperation::ImportDemand {
                key: key.clone(),
                acquired_at: *acquired_at,
            },
            AvailabilityBatchOperation::ReleaseDemand(k) => AvailabilityBatchOperation::ReleaseDemand(k.clone()),
            AvailabilityBatchOperation::SetAlwaysOn(b) => AvailabilityBatchOperation::SetAlwaysOn(*b),
            AvailabilityBatchOperation::PauseProject => AvailabilityBatchOperation::PauseProject,
            AvailabilityBatchOperation::SetTrustedLaunchPath(p) => AvailabilityBatchOperation::SetTrustedLaunchPath(
                match p {
                    Some(p) => Some(p.clone()),
                    None => None,
                },
            ),
            AvailabilityBatchOperation::Retire => AvailabilityBatchOperation::Retire,
        }
    }
}

/// An ordered availability transaction evaluated at one fixed wall-clock time.
#[derive(Debug, PartialEq, Eq)]
pub struct AvailabilityBatch {
    pub effective_at: u64,
    pub operations: Vec<AvailabilityBatchOperation>,
}

fn clone_operations(v: &Vec<AvailabilityBatchOperation>) -> (r: Vec<AvailabilityBatchOperation>)
    ensures
        r@ == v@,
{
    let mut out: Vec<AvailabilityBatchOperation> = Vec::new();
    let mut i: usize = 0;
    while i < v.len()
        invariant
            i <= v@.len(),
            out@ == v@.take(i as int),
        decreases v@.len() - i,
    {
        out.push(v[i].clone());
        i = i + 1;
        assert(out@ =~= v@.take(i as int));
    }
    assert(v@.take(v@.len() as int) =~= v@);
    out
}

impl Clone for AvailabilityBatch {
    fn clone(&self) -> (r: Self)
        ensures
            r.effective_at == self.effective_at,
            r.operations@ == self.operations@,
    {
        AvailabilityBatch { effective_at: self.effective_at, operations: clone_operations(&self.operations) }
    }
}

impl AvailabilityBatch {
    /// Begin a batch whose time-dependent operations all use `effective_at`.
    pub fn new(effective_at: u64) -> (r: Self)
        ensures
            r.effective_at == effective_at,
            r.operations@ == Seq::<AvailabilityBatchOperation>::empty(),
    {
        AvailabilityBatch { effective_at, operations: Vec::new() }
    }

    /// Append one operation, preserving caller order.
    pub fn push(&mut self, operation: AvailabilityBatchOperation)
        ensures
            final(self).effective_at == old(self).effective_at,
            final(self).operations@ == old(self).operations@.push(operation),
    {
        self.operations.push(operation);
    }

    /// Append one operation and return the batch for fluent construction.
    pub fn with_operation(self, operation: AvailabilityBatchOperation) -> (r: Self)
        ensures
            r.effective_at == self.effective_at,
            r.operations@ == self.operations@.push(operation),
    {
        let mut batch = self;
        batch.push(operation);
        batch
    }

    pub fn effective_at(&self) -> (r: u64)
        ensures
            r == self.effective_at,
    {
        self.effective_at
    }

    pub fn operations(&self) -> (r: &[AvailabilityBatchOperation])
        ensures
            r@ == self.operations@,
    {
        self.operations.as_slice()
    }

    pub fn is_empty(&self) -> (r: bool)
        ensures
            r == (self.operations@.len() == 0),
    {
        self.operations.len() == 0
    }
}

/// Exact authoritative state before or after a prepared availability batch.
///
/// Keeping absence distinct from a persisted default record gives
/// initialization and retirement deterministic, restart-stable semantics.
#[derive(Debug, PartialEq, Eq)]
pub enum AvailabilityStateImage {
    /// No authoritative availability file exists.
    Retired,
    /// The authoritative file contains this validated state.
    Present(ProjectAvailability),
}

/// An image as the record it holds, if any.
pub open spec fn image_view(img: AvailabilityStateImage) -> Option<AvailabilityView> {
    match img {
        AvailabilityStateImage::Retired => None,
        AvailabilityStateImage::Present(a) => Some(a@),
    }
}

impl Clone for AvailabilityStateImage {
    fn clone(&self) -> (r: Self)
        ensures
            image_view(r) == image_view(*self),
    {
        match self {
            AvailabilityStateImage::Retired => AvailabilityStateImage::Retired,
            AvailabilityStateImage::Present(a) => AvailabilityStateImage::Present(a.clone()),
        }
    }
}

/// The record an operation works on: the image's, or an empty one.
pub open spec fn materialized(img: Option<AvailabilityView>) -> AvailabilityView {
    match img {
        Some(a) => a,
        None => empty_availability(),
    }
}

impl AvailabilityStateImage {
    pub fn availability(&self) -> (r: Option<&ProjectAvailability>)
        ensures
            match r {
                Some(a) => image_view(*self) == Some(a@),
                None => image_view(*self) is None,
            },
    {
        match self {
            AvailabilityStateImage::Retired => None,
            AvailabilityStateImage::Present(a) => Some(a),
        }
    }

    /// The record a cache holds for this image: an empty one when retired.
    pub fn cached_availability(&self) -> (r: ProjectAvailability)
        ensures
            r@ == materialized(image_view(*self)),
    {
        match self {
            AvailabilityStateImage::Retired => ProjectAvailability::default(),
            AvailabilityStateImage::Present(a) => a.clone(),
        }
    }
}

/// A transition of a present record as a transition of images.
pub open spec fn lift(r: Result<AvailabilityView, TransitionFailure>) -> Result<Option<AvailabilityView>, TransitionFailure> {
    match r {
        Ok(a) => Ok(Some(a)),
        Err(f) => Err(f),
    }
}

/// The image after one operation at `at`.
pub open spec fn spec_step(img: Option<AvailabilityView>, op: AvailabilityBatchOperation, at: u64) -> Result<
    Option<AvailabilityView>,
    TransitionFailure,
> {
    match op {
        AvailabilityBatchOperation::Initialize => Ok(Some(materialized(img))),
        AvailabilityBatchOperation::EnsureDemand(key) => lift(spec_ensure(materialized(img), key, at)),
        AvailabilityBatchOperation::RenewDemand(key) => match img {
            None => Ok(None),
            Some(a) => lift(spec_renew(a, key_view(key), at)),
        },
        AvailabilityBatchOperation::RevalidateDemand(key) => match img {
            None => Ok(None),
            Some(a) => lift(spec_revalidate(a, key_view(key), at)),
        },
        AvailabilityBatchOperation::ImportDemand { key, acquired_at } => lift(
            spec_import(materialized(img), key, acquired_at, at),
        ),
        AvailabilityBatchOperation::ReleaseDemand(key) => match img {
            None => Ok(None),
            Some(a) => lift(spec_release(a, key_view(key), at)),
        },
        AvailabilityBatchOperation::SetAlwaysOn(enabled) => if enabled {
            lift(spec_set_always_on(materialized(img), true, at))
        } else {
            match img {
                None => Ok(None),
                Some(a) => lift(spec_set_always_on(a, false, at)),
            }
        },
        AvailabilityBatchOperation::PauseProject => Ok(Some(spec_pause(materialized(img)))),
        AvailabilityBatchOperation::SetTrustedLaunchPath(path) => match path {
            Some(p) => Ok(Some(AvailabilityView { trusted_launch_path: Some(p@), ..materialized(img) })),
            None => match img {
                None => Ok(None),
                Some(a) => Ok(Some(AvailabilityView { trusted_launch_path: None, ..a })),
            },
        },
        AvailabilityBatchOperation::Retire => Ok(None),
    }
}

/// Give a retired image an empty record.
fn materialize_availability(image: &mut AvailabilityStateImage)
    ensures
        image_view(*final(image)) == Some(materialized(image_view(*old(image)))),
{
    if let AvailabilityStateImage::Retired = image {
        *image = AvailabilityStateImage::Present(ProjectAvailability::default());
    }
}

/// Apply one operation to an image.
fn apply_batch_operation(image: &mut AvailabilityStateImage, operation: &AvailabilityBatchOperation, effective_at: u64) -> (r: Result<
    (),
    AvailabilityError,
>)
    ensures
        match spec_step(image_view(*old(image)), *operation, effective_at) {
            Ok(next) => r is Ok && image_view(*final(image)) == next,
            Err(f) => r matches Err(e) && failure_is(e, f),
        },
{
    match operation {
        AvailabilityBatchOperation::Initialize => {
            materialize_availability(image);
            Ok(())
        },
        AvailabilityBatchOperation::EnsureDemand(key) => {
            materialize_availability(image);
            match image {
                AvailabilityStateImage::Present(a) => {
                    a.ensure_demand(key.clone(), effective_at)?;
                    Ok(())
                },
                AvailabilityStateImage::Retired => Ok(()),
            }
        },
        AvailabilityBatchOperation::RenewDemand(key) => match image {
            AvailabilityStateImage::Present(a) => {
                a.renew_demand(key, effective_at)?;
                Ok(())
            },
            AvailabilityStateImage::Retired => Ok(()),
        },
        AvailabilityBatchOperation::RevalidateDemand(key) => match image {
            AvailabilityStateImage::Present(a) => {
                a.revalidate_demand(key, effective_at)?;
                Ok(())
            },
            AvailabilityStateImage::Retired => Ok(()),
        },
        AvailabilityBatchOperation::ImportDemand { key, acquired_at } => {
            materialize_availability(image);
            match image {
                AvailabilityStateImage::Present(a) => {
                    a.import_demand(key.clone(), *acquired_at, effective_at)?;
                    Ok(())
                },
                AvailabilityStateImage::Retired => Ok(()),
            }
        },
        AvailabilityBatchOperation::ReleaseDemand(key) => match image {
            AvailabilityStateImage::Present(a) => {
                a.release_demand(key, effective_at)?;
                Ok(())
            },
            AvailabilityStateImage::Retired => Ok(()),
        },
        AvailabilityBatchOperation::SetAlwaysOn(enabled) => {
            if *enabled {
                materialize_availability(image);
            }
            match image {
                AvailabilityStateImage::Present(a) => {
                    a.set_always_on(*enabled, effective_at)?;
                    Ok(())
                },
                AvailabilityStateImage::Retired => Ok(()),
            }
        },
        AvailabilityBatchOperation::PauseProject => {
            materialize_availability(image);
            match image {
                AvailabilityStateImage::Present(a) => {
                    a.pause_project();
                    Ok(())
                },
                AvailabilityStateImage::Retired => Ok(()),
            }
        },
        AvailabilityBatchOperation::SetTrustedLaunchPath(path) => {
            if path.is_some() {
                materialize_availability(image);
            }
            match image {
                AvailabilityStateImage::Present(a) => {
                    a.set_trusted_launch_path(clone_opt_string(path));
                    Ok(())
                },
                AvailabilityStateImage::Retired => Ok(()),
            }
        },
        AvailabilityBatchOperation::Retire => {
            *image = AvailabilityStateImage::Retired;
            Ok(())
        },
    }
}

/// Why a batch is refused.
pub enum BatchFailure {
    /// An operation's transition was refused.
    Transition(TransitionFailure),
    /// The base image, or the image after some operation, is malformed.
    InvalidImage(AvailabilityView),
    /// An operation names a malformed demand key.
    InvalidOperation(DemandKey),
}

/// The demand key an operation names, if any.
pub open spec fn operation_key(op: AvailabilityBatchOperation) -> Option<DemandKey> {
    match op {
        AvailabilityBatchOperation::EnsureDemand(k) => Some(k),
        AvailabilityBatchOperation::RenewDemand(k) => Some(k),
        AvailabilityBatchOperation::RevalidateDemand(k) => Some(k),
        AvailabilityBatchOperation::ImportDemand { key, .. } => Some(key),
        AvailabilityBatchOperation::ReleaseDemand(k) => Some(k),
        _ => None,
    }
}

/// One operation with its checks: the key it names must be well formed, and
/// the record after it must validate.
pub open spec fn spec_checked_step(img: Option<AvailabilityView>, op: AvailabilityBatchOperation, at: u64) -> Result<
    Option<AvailabilityView>,
    BatchFailure,
> {
    if operation_key(op) matches Some(k) && !spec_key_valid(key_view(k)) {
        Err(BatchFailure::InvalidOperation(operation_key(op)->0))
    } else {
        match spec_step(img, op, at) {
            Err(f) => Err(BatchFailure::Transition(f)),
            Ok(next) => match next {
                Some(a) => if spec_availability_valid(a) {
                    Ok(next)
                } else {
                    Err(BatchFailure::InvalidImage(a))
                },
                None => Ok(None),
            },
        }
    }
}

/// The image after running `ops` in order from `img`, stopping at the first refusal.
pub open spec fn spec_run(img: Option<AvailabilityView>, ops: Seq<AvailabilityBatchOperation>, at: u64) -> Result<
    Option<AvailabilityView>,
    BatchFailure,
>
    decreases ops.len(),
{
    if ops.len() == 0 {
        Ok(img)
    } else {
        match spec_run(img, ops.drop_last(), at) {
            Ok(mid) => spec_checked_step(mid, ops.last(), at),
            Err(f) => Err(f),
        }
    }
}

/// The target of a batch prepared against `expected`, whose record must validate.
pub open spec fn spec_prepare(expected: Option<AvailabilityView>, ops: Seq<AvailabilityBatchOperation>, at: u64) -> Result<
    Option<AvailabilityView>,
    BatchFailure,
> {
    if expected matches Some(a) && !spec_availability_valid(a) {
        Err(BatchFailure::InvalidImage(expected->0))
    } else {
        spec_run(expected, ops, at)
    }
}

/// Whether an error reports a refused batch for the store at `path`.
pub open spec fn batch_failure_is(e: AvailabilityError, f: BatchFailure, path: Seq<char>) -> bool {
    match f {
        BatchFailure::Transition(t) => failure_is(e, t),
        BatchFailure::InvalidImage(a) => e matches AvailabilityError::InvalidData { path: p, reason } && p@ == path
            && availability_error_message(a, reason@),
        BatchFailure::InvalidOperation(k) => e matches AvailabilityError::InvalidData { path: p, reason } && p@ == path
            && reason@ == "invalid demand operation: "@ + key_error_message(key_view(k)),
    }
}

/// A journal-ready availability transaction with an exact compare-and-publish
/// contract.
///
/// Persist this payload before applying it. On replay, the store publishes
/// `target` only when the authoritative state still equals `expected`; if it
/// already equals `target`, replay is a no-op. Operations are never re-run
/// during replay, so deadlines and activity generations cannot drift.
#[derive(Debug, PartialEq, Eq)]
pub struct PreparedAvailabilityBatch {
    pub project_instance_id: ProjectInstanceId,
    pub batch: AvailabilityBatch,
    pub expected: AvailabilityStateImage,
    pub target: AvailabilityStateImage,
}

fn validate_batch_operation(operation: &AvailabilityBatchOperation, path: &str) -> (r: Result<(), AvailabilityError>)
    ensures
        r is Ok <==> !(operation_key(*operation) matches Some(k) && !spec_key_valid(key_view(k))),
        r matches Err(e) ==> batch_failure_is(e, BatchFailure::InvalidOperation(operation_key(*operation)->0), path@),
{
    let key = match operation {
        AvailabilityBatchOperation::EnsureDemand(k) => k,
        AvailabilityBatchOperation::RenewDemand(k) => k,
        AvailabilityBatchOperation::RevalidateDemand(k) => k,
        AvailabilityBatchOperation::ImportDemand { key, .. } => key,
        AvailabilityBatchOperation::ReleaseDemand(k) => k,
        _ => return Ok(()),
    };
    match key.validate() {
        Ok(()) => Ok(()),
        Err(reason) => {
            let mut message = String::new();
            push_str(&mut message, "invalid demand operation: ");
            push_str(&mut message, reason.as_str());
            Err(AvailabilityError::InvalidData { path: String::from_str(path), reason: message })
        },
    }
}

fn validate_availability_image(image: &AvailabilityStateImage, path: &str) -> (r: Result<(), AvailabilityError>)
    ensures
        r is Ok <==> !(image_view(*image) matches Some(a) && !spec_availability_valid(a)),
        r matches Err(e) ==> batch_failure_is(e, BatchFailure::InvalidImage(image_view(*image)->0), path@),
{
    if let AvailabilityStateImage::Present(a) = image {
        if let Err(reason) = a.validate() {
            return Err(AvailabilityError::InvalidData { path: String::from_str(path), reason });
        }
    }
    Ok(())
}

/// Prepare a batch against the authoritative image `expected`: every
/// operation runs in order at the batch's fixed time, each named key and each
/// intermediate record is checked, and the result is the exact target.
pub fn prepare_availability_batch(
    project_instance_id: ProjectInstanceId,
    expected: AvailabilityStateImage,
    batch: &AvailabilityBatch,
    path: &str,
) -> (r: Result<PreparedAvailabilityBatch, AvailabilityError>)
    ensures
        match spec_prepare(image_view(expected), batch.operations@, batch.effective_at) {
            Ok(t) => r matches Ok(pb) && pb.project_instance_id == project_instance_id && image_view(pb.expected)
                == image_view(expected) && image_view(pb.target) == t && pb.batch.effective_at == batch.effective_at
                && pb.batch.operations@ == batch.operations@,
            Err(f) => r matches Err(e) && batch_failure_is(e, f, path@),
        },
{
    validate_availability_image(&expected, path)?;
    let mut target = expected.clone();
    let ghost ops = batch.operations@;
    let ghost at = batch.effective_at;
    proof {
        assert(ops.take(0) =~= Seq::<AvailabilityBatchOperation>::empty());
    }
    let mut i: usize = 0;
    while i < batch.operations.len()
        invariant
            i <= ops.len(),
            ops == batch.operations@,
            at == batch.effective_at,
            !(image_view(expected) matches Some(a) && !spec_availability_valid(a)),
            spec_run(image_view(expected), ops.take(i as int), at) == Ok::<Option<AvailabilityView>, BatchFailure>(
                image_view(target),
            ),
        decreases ops.len() - i,
    {
        proof {
            assert(ops.take(i + 1).drop_last() =~= ops.take(i as int));
            assert(ops.take(i + 1).last() == ops[i as int]);
        }
        let operation = &batch.operations[i];
        if let Err(e) = validate_batch_operation(operation, path) {
            proof {
                lemma_run_stops(image_view(expected), ops, at, i as int + 1);
            }
            return Err(e);
        }
        if let Err(e) = apply_batch_operation(&mut target, operation, batch.effective_at) {
            proof {
                lemma_run_stops(image_view(expected), ops, at, i as int + 1);
            }
            return Err(e);
        }
        if let AvailabilityStateImage::Present(a) = &target {
            if let Err(reason) = a.validate() {
                proof {
                    lemma_run_stops(image_view(expected), ops, at, i as int + 1);
                }
                return Err(AvailabilityError::InvalidData { path: String::from_str(path), reason });
            }
        }
        i = i + 1;
    }
    proof {
        assert(ops.take(ops.len() as int) =~= ops);
    }
    Ok(PreparedAvailabilityBatch { project_instance_id, batch: batch.clone(), expected, target })
}

/// A run refused within a prefix is refused with the same failure.
proof fn lemma_run_stops(img: Option<AvailabilityView>, ops: Seq<AvailabilityBatchOperation>, at: u64, n: int)
    requires
        0 <= n <= ops.len(),
        spec_run(img, ops.take(n), at) is Err,
    ensures
        spec_run(img, ops, at) == spec_run(img, ops.take(n), at),
    decreases ops.len() - n,
{
    if n < ops.len() {
        assert(ops.take(n + 1).drop_last() =~= ops.take(n));
        lemma_run_stops(img, ops, at, n + 1);
    } else {
        assert(ops.take(n) =~= ops);
    }
}

/// A lease by its key text and numbers.
pub open spec fn lease_deep(l: DemandLease) -> ((DemandKind, Option<Seq<char>>), u64, u64, u64, Option<u64>) {
    (key_view(l.key), l.generation, l.acquired_at, l.renewed_at, l.expires_at)
}

/// Whether two records hold the same values, comparing text by characters.
pub open spec fn same_record(a: AvailabilityView, b: AvailabilityView) -> bool {
    &&& a.activity_generation == b.activity_generation
    &&& a.always_on == b.always_on
    &&& a.pause_through_generation == b.pause_through_generation
    &&& a.demands.map_values(|l: DemandLease| lease_deep(l)) == b.demands.map_values(|l: DemandLease| lease_deep(l))
    &&& a.shutdown_cooldown_until == b.shutdown_cooldown_until
    &&& a.trusted_launch_path == b.trusted_launch_path
    &&& a.last_convergence_error == b.last_convergence_error
}

/// Whether two images hold the same values.
pub open spec fn same_image(x: Option<AvailabilityView>, y: Option<AvailabilityView>) -> bool {
    match (x, y) {
        (None, None) => true,
        (Some(a), Some(b)) => same_record(a, b),
        _ => false,
    }
}

fn same_lease(a: &DemandLease, b: &DemandLease) -> (r: bool)
    ensures
        r == (lease_deep(*a) == lease_deep(*b)),
{
    same_key(&a.key, &b.key) && a.generation == b.generation && a.acquired_at == b.acquired_at && a.renewed_at
        == b.renewed_at && a.expires_at == b.expires_at
}

fn same_records(a: &ProjectAvailability, b: &ProjectAvailability) -> (r: bool)
    ensures
        r == same_record(a@, b@),
{
    if a.activity_generation != b.activity_generation || a.always_on != b.always_on || a.pause_through_generation
        != b.pause_through_generation || a.shutdown_cooldown_until != b.shutdown_cooldown_until {
        return false;
    }
    if !opt_string_eq(&a.trusted_launch_path, &b.trusted_launch_path) || !opt_string_eq(
        &a.last_convergence_error,
        &b.last_convergence_error,
    ) {
        return false;
    }
    let ghost da = a@.demands.map_values(|l: DemandLease| lease_deep(l));
    let ghost db = b@.demands.map_values(|l: DemandLease| lease_deep(l));
    if a.demands.len() != b.demands.len() {
        proof {
            assert(da.len() != db.len());
        }
        return false;
    }
    let mut i: usize = 0;
    while i < a.demands.len()
        invariant
            i <= a.demands@.len(),
            a.demands@.len() == b.demands@.len(),
            da == a@.demands.map_values(|l: DemandLease| lease_deep(l)),
            db == b@.demands.map_values(|l: DemandLease| lease_deep(l)),
            forall|j: int| 0 <= j < i ==> da[j] == db[j],
        decreases a.demands@.len() - i,
    {
        if !same_lease(&a.demands[i], &b.demands[i]) {
            proof {
                assert(da[i as int] != db[i as int]);
            }
            return false;
        }
        i = i + 1;
    }
    proof {
        assert(da =~= db);
    }
    true
}

fn same_images(x: &AvailabilityStateImage, y: &AvailabilityStateImage) -> (r: bool)
    ensures
        r == same_image(image_view(*x), image_view(*y)),
{
    match (x, y) {
        (AvailabilityStateImage::Retired, AvailabilityStateImage::Retired) => true,
        (AvailabilityStateImage::Present(a), AvailabilityStateImage::Present(b)) => same_records(a, b),
        _ => false,
    }
}

/// The diagnostic path naming a prepared batch of one instance.
pub open spec fn prepared_path(project_instance_id: ProjectInstanceId) -> Seq<char> {
    "<prepared-availability:"@ + uuid_text(project_instance_id.value) + ">"@
}

/// The diagnostic for a target that its operations do not produce.
pub open spec fn target_mismatch_message() -> Seq<char> {
    "prepared availability target does not match its ordered operations"@
}

impl PreparedAvailabilityBatch {
    pub fn project_instance_id(&self) -> (r: ProjectInstanceId)
        ensures
            r == self.project_instance_id,
    {
        self.project_instance_id
    }

    pub fn batch(&self) -> (r: &AvailabilityBatch)
        ensures
            *r == self.batch,
    {
        &self.batch
    }

    pub fn expected(&self) -> (r: &AvailabilityStateImage)
        ensures
            *r == self.expected,
    {
        &self.expected
    }

    pub fn target(&self) -> (r: &AvailabilityStateImage)
        ensures
            *r == self.target,
    {
        &self.target
    }

    /// Validate that this journaled target is the exact result of replaying
    /// its ordered operations against the captured base image.
    ///
    /// This is intentionally pure: transaction journals can reject malformed
    /// or truncated prepared state before publishing any other authority.
    pub fn validate(&self) -> (r: Result<(), AvailabilityError>)
        ensures
            match spec_prepare(image_view(self.expected), self.batch.operations@, self.batch.effective_at) {
                Ok(t) => (r is Ok <==> same_image(t, image_view(self.target))) && (r matches Err(e) ==> (e matches AvailabilityError::InvalidData {
                    path,
                    reason,
                } && path@ == prepared_path(self.project_instance_id) && reason@ == target_mismatch_message())),
                Err(f) => r matches Err(e) && batch_failure_is(e, f, prepared_path(self.project_instance_id)),
            },
    {
        let mut path = String::new();
        push_str(&mut path, "<prepared-availability:");
        let id = self.project_instance_id.to_string();
        push_str(&mut path, id.as_str());
        push_str(&mut path, ">");
        let recomputed = prepare_availability_batch(
            self.project_instance_id,
            self.expected.clone(),
            &self.batch,
            path.as_str(),
        )?;
        if !same_images(&recomputed.target, &self.target) {
            return Err(
                AvailabilityError::InvalidData {
                    path,
                    reason: String::from_str("prepared availability target does not match its ordered operations"),
                },
            );
        }
        Ok(())
    }
}

/// Whether a prepared availability publication changed the authoritative
/// directory entry or observed that an earlier attempt already did so.
#[derive(Debug, Clone, Copy, PartialEq, Eq, Structural)]
pub enum AvailabilityBatchDisposition {
    Published,
    AlreadyApplied,
}

/// Result of applying a direct or prepared availability batch.
#[derive(Debug, PartialEq, Eq)]
pub struct AvailabilityBatchApplyResult {
    pub disposition: AvailabilityBatchDisposition,
    pub target: AvailabilityStateImage,
}

impl AvailabilityBatchApplyResult {
    pub fn disposition(&self) -> (r: AvailabilityBatchDisposition)
        ensures
            r == self.disposition,
    {
        self.disposition
    }

    pub fn target(&self) -> (r: &AvailabilityStateImage)
        ensures
            *r == self.target,
    {
        &self.target
    }
}

/// What applying a prepared batch to the current authoritative image does:
/// nothing if the target is already there, publish the target if the image
/// still equals the captured base, and refuse any third state.
pub fn prepared_publication(prepared: &PreparedAvailabilityBatch, current: &AvailabilityStateImage, path: &str) -> (r:
    Result<AvailabilityBatchDisposition, AvailabilityError>)
    ensures
        same_image(image_view(*current), image_view(prepared.target)) ==> r == Ok::<
            AvailabilityBatchDisposition,
            AvailabilityError,
        >(AvailabilityBatchDisposition::AlreadyApplied),
        !same_image(image_view(*current), image_view(prepared.target)) && same_image(
            image_view(*current),
            image_view(prepared.expected),
        ) ==> r == Ok::<AvailabilityBatchDisposition, AvailabilityError>(AvailabilityBatchDisposition::Published),
        !same_image(image_view(*current), image_view(prepared.target)) && !same_image(
            image_view(*current),
            image_view(prepared.expected),
        ) ==> (r matches Err(AvailabilityError::BatchBaseMismatch { path: p }) && p@ == path@),
{
    if same_images(current, &prepared.target) {
        return Ok(AvailabilityBatchDisposition::AlreadyApplied);
    }
    if !same_images(current, &prepared.expected) {
        return Err(AvailabilityError::BatchBaseMismatch { path: String::from_str(path) });
    }
    Ok(AvailabilityBatchDisposition::Published)
}

/// The standard per-instance availability path beneath `data_dir`.
pub open spec fn spec_availability_path(data_dir: Seq<char>, project_instance_id: ProjectInstanceId) -> Seq<char> {
    path_join(path_join(path_join(data_dir, "instances"@), uuid_text(project_instance_id.value)), "availability.json"@)
}

/// Accept a parsed availability file for the instance that owns its path:
/// the schema version must be the current one, the embedded owner the
/// path's owner, and the state valid.
pub fn admit_availability_file(
    path: &str,
    version: Option<u64>,
    embedded: ProjectInstanceId,
    owner: ProjectInstanceId,
    availability: ProjectAvailability,
) -> (r: Result<AvailabilityStateImage, AvailabilityError>)
    ensures
        version is None ==> (r matches Err(AvailabilityError::InvalidData { path: p, reason }) && p@ == path@ && reason@
            == "missing unsigned integer schema version"@),
        version is Some && version->0 != AVAILABILITY_VERSION ==> (r matches Err(
            AvailabilityError::UnsupportedVersion { path: p, found, expected },
        ) && p@ == path@ && found == version->0 && expected == AVAILABILITY_VERSION),
        version == Some(AVAILABILITY_VERSION as u64) && embedded != owner ==> (r matches Err(
            AvailabilityError::InvalidData { path: p, .. },
        ) && p@ == path@),
        version == Some(AVAILABILITY_VERSION as u64) && embedded == owner ==> (r is Ok <==> spec_availability_valid(
            availability@,
        )) && (r matches Ok(img) ==> image_view(img) == Some(availability@)) && (r matches Err(e) ==> (e matches AvailabilityError::InvalidData { path: p, .. } && p@ == path@)),
{
    let found = match version {
        Some(v) => v,
        None => {
            proof {
                reveal_strlit("missing unsigned integer schema version");
            }
            return Err(AvailabilityError::InvalidData {
                path: String::from_str(path),
                reason: String::from_str("missing unsigned integer schema version"),
            });
        },
    };
    if found != AVAILABILITY_VERSION as u64 {
        return Err(AvailabilityError::UnsupportedVersion {
            path: String::from_str(path),
            found,
            expected: AVAILABILITY_VERSION,
        });
    }
    if embedded.value != owner.value {
        let mut reason = String::new();
        push_str(&mut reason, "embedded project instance ");
        let e = embedded.to_string();
        push_str(&mut reason, e.as_str());
        push_str(&mut reason, " does not match path owner ");
        let o = owner.to_string();
        push_str(&mut reason, o.as_str());
        return Err(AvailabilityError::InvalidData { path: String::from_str(path), reason });
    }
    match availability.validate() {
        Ok(()) => Ok(AvailabilityStateImage::Present(availability)),
        Err(reason) => Err(AvailabilityError::InvalidData { path: String::from_str(path), reason }),
    }
}

/// Return the standard per-instance availability path beneath `data_dir`.
pub fn availability_path(data_dir: &str, project_instance_id: ProjectInstanceId) -> (r: String)
    ensures
        r@ == spec_availability_path(data_dir@, project_instance_id),
{
    let instances = join_path(data_dir, "instances");
    let id = project_instance_id.to_string();
    let instance = join_path(instances.as_str(), id.as_str());
    join_path(instance.as_str(), "availability.json")
}

/// The directories whose entries a first publication of the instance's state
/// directory creates: every non-empty proper ancestor, nearest first.
pub fn availability_hierarchy_owners(project_state_directory: &str) -> (r: Vec<String>)
    ensures
        texts(r@) == non_empty(ancestors(project_state_directory@)),
{
    non_empty_ancestors(project_state_directory)
}

// ---------------------------------------------------------------------------
// Laws
// ---------------------------------------------------------------------------

proof fn lemma_effective_leases_persist_backwards(s: Seq<DemandLease>, pause: Option<u64>, earlier: u64, later: u64)
    requires
        earlier <= later,
        effective_leases(s, pause, later).len() > 0,
    ensures
        effective_leases(s, pause, earlier).len() > 0,
    decreases s.len(),
{
    if s.len() > 0 {
        if spec_is_live(s.last(), later) && generation_effective(pause, s.last().generation) {
            assert(spec_is_live(s.last(), earlier));
        } else {
            lemma_effective_leases_persist_backwards(s.drop_last(), pause, earlier, later);
        }
    }
}

/// With the record unchanged, wanting the instance up is monotone in time:
/// leases only lapse, so a record that wants the instance up at some instant
/// wanted it up at every earlier one.
pub proof fn lemma_desired_up_only_lapses(a: AvailabilityView, earlier: u64, later: u64)
    requires
        earlier <= later,
    ensures
        spec_desired_up(a, later) ==> spec_desired_up(a, earlier),
{
    if spec_desired_up(a, later) && !a.always_on {
        lemma_effective_leases_persist_backwards(a.demands, a.pause_through_generation, earlier, later);
    }
}

/// Whether a lease's deadline is one documented lease window after its
/// latest renewal: four hours for a manual CLI demand or a stopped-page
/// resume, two minutes for an editor window, forty-five minutes for an agent
/// conversation, two minutes for a legacy process attachment.
pub open spec fn documented_window(l: DemandLease) -> bool {
    &&& (l.key.kind == DemandKind::ManualCli ==> l.expires_at == Some((l.renewed_at + 14_400_000_000_000u64) as u64))
    &&& (l.key.kind == DemandKind::StoppedPageResume ==> l.expires_at == Some((l.renewed_at + 14_400_000_000_000u64) as u64))
    &&& (l.key.kind == DemandKind::VsCodeWindow ==> l.expires_at == Some((l.renewed_at + 120_000_000_000u64) as u64))
    &&& (l.key.kind == DemandKind::AgentConversation ==> l.expires_at == Some((l.renewed_at + 2_700_000_000_000u64) as u64))
    &&& (l.key.kind == DemandKind::LegacyProcessAttachment ==> l.expires_at == Some(
        (l.renewed_at + 120_000_000_000u64) as u64,
    ))
}

/// Every lease an ensure, a renewal, a revalidation or an import hands out
/// runs for its kind's documented window from its renewal, which is never
/// before the operation's time (an import's from its acquisition).
pub proof fn lemma_lease_windows(a: AvailabilityView, key: DemandKey, k: (DemandKind, Option<Seq<char>>), g: u64, now: u64)
    ensures
        spec_ensure(a, key, now) is Ok ==> documented_window(ensure_result(a, key, now).lease)
            && ensure_result(a, key, now).lease.renewed_at >= now && ensure_result(a, key, now).lease.key.kind == key.kind,
        spec_renew(a, k, now) is Ok ==> (renew_result(a, k, now) matches RenewDemandResult::Renewed(l) ==> documented_window(
            l,
        ) && l.renewed_at >= now),
        spec_revalidate(a, k, now) is Ok ==> (revalidate_result(a, k, now) matches RenewDemandResult::Renewed(l)
            ==> documented_window(l) && l.renewed_at >= now),
        documented_window(fresh_lease(key, g, now)) && fresh_lease(key, g, now).renewed_at == now,
        MANUAL_DEMAND_TTL == 14_400_000_000_000u64,
        VSCODE_DEMAND_TTL == 120_000_000_000u64,
{
    lemma_key_position_none(a.demands, key_view(key));
    lemma_key_position_none(a.demands, k);
}

/// Arming never happens while an effective demand remains: after a release,
/// an expiry, a passive renewal or an Always On change, a record that still
/// holds a live demand newer than the pause barrier keeps the cooldown it
/// had, and an explicit ensure clears it.
pub proof fn lemma_no_cooldown_while_demanded(
    a: AvailabilityView,
    key: DemandKey,
    k: (DemandKind, Option<Seq<char>>),
    enabled: bool,
    now: u64,
)
    ensures
        spec_release(a, k, now) matches Ok(b) ==> (spec_effective_demands(b, now).len() > 0 ==> b.shutdown_cooldown_until
            == a.shutdown_cooldown_until),
        spec_expire(a, now) matches Ok(b) ==> (spec_effective_demands(b, now).len() > 0 ==> b.shutdown_cooldown_until
            == a.shutdown_cooldown_until),
        spec_renew(a, k, now) matches Ok(b) ==> (spec_effective_demands(b, now).len() > 0 ==> b.shutdown_cooldown_until
            == a.shutdown_cooldown_until || b.shutdown_cooldown_until is None),
        spec_set_always_on(a, enabled, now) matches Ok(b) ==> (spec_effective_demands(b, now).len() > 0
            ==> b.shutdown_cooldown_until == a.shutdown_cooldown_until || b.shutdown_cooldown_until is None),
        spec_ensure(a, key, now) matches Ok(b) ==> b.shutdown_cooldown_until is None,
{
}

/// No accepted transition lowers the activity generation; only an explicit
/// ensure, an import, or an Always On activation advances it, by one.
pub proof fn lemma_activity_generation_never_decreases(
    a: AvailabilityView,
    key: DemandKey,
    k: (DemandKind, Option<Seq<char>>),
    enabled: bool,
    acquired_at: u64,
    now: u64,
)
    ensures
        spec_ensure(a, key, now) matches Ok(b) ==> b.activity_generation >= a.activity_generation,
        spec_renew(a, k, now) matches Ok(b) ==> b.activity_generation == a.activity_generation,
        spec_revalidate(a, k, now) matches Ok(b) ==> b.activity_generation == a.activity_generation,
        spec_import(a, key, acquired_at, now) matches Ok(b) ==> b.activity_generation >= a.activity_generation,
        spec_release(a, k, now) matches Ok(b) ==> b.activity_generation == a.activity_generation,
        spec_expire(a, now) matches Ok(b) ==> b.activity_generation == a.activity_generation,
        spec_set_always_on(a, enabled, now) matches Ok(b) ==> b.activity_generation >= a.activity_generation,
        spec_pause(a).activity_generation == a.activity_generation,
{
}

/// A cooldown defers shutdown of a running instance but never makes the
/// instance desired up, so it cannot authorize a start or a restore.
pub proof fn lemma_cooldown_never_authorizes_start(a: AvailabilityView, now: u64)
    ensures
        spec_shutdown_deferred(a, now) ==> !spec_desired_up(a, now),
        spec_shutdown_deferred(a, now) ==> spec_convergence_decision(a, now) == (ConvergenceDecision::PreserveRuntimeUntil {
            deadline: a.shutdown_cooldown_until->0,
        }),
{
}

/// A pause stops the instance: after it the instance is neither desired up
/// nor kept alive by a cooldown, whatever demands or policy it holds.
pub proof fn lemma_pause_suppresses_everything(a: AvailabilityView, now: u64)
    ensures
        !spec_desired_up(spec_pause(a), now),
        !spec_shutdown_deferred(spec_pause(a), now),
        spec_convergence_decision(spec_pause(a), now) == ConvergenceDecision::EnsureDown,
{
}

/// Passive renewal and revalidation never resume a paused instance: the
/// activity generation and the pause barrier stay where they were.
pub proof fn lemma_renewal_never_resumes(a: AvailabilityView, k: (DemandKind, Option<Seq<char>>), now: u64)
    ensures
        spec_renew(a, k, now) matches Ok(b) ==> b.activity_generation == a.activity_generation
            && b.pause_through_generation == a.pause_through_generation && (spec_is_paused(a) ==> !spec_desired_up(b, now)),
        spec_revalidate(a, k, now) matches Ok(b) ==> b.activity_generation == a.activity_generation
            && b.pause_through_generation == a.pause_through_generation && (spec_is_paused(a) ==> !spec_desired_up(b, now)),
{
}

proof fn lemma_effective_nonempty(s: Seq<DemandLease>, pause: Option<u64>, now: u64, i: int)
    requires
        0 <= i < s.len(),
        spec_is_live(s[i], now),
        generation_effective(pause, s[i].generation),
    ensures
        effective_leases(s, pause, now).len() > 0,
    decreases s.len(),
{
    if i < s.len() - 1 {
        let t = s.drop_last();
        assert(t[i] == s[i]);
        lemma_effective_nonempty(t, pause, now, i);
    }
}

proof fn lemma_insert_position_bounds(s: Seq<DemandLease>, x: DemandLease)
    ensures
        0 <= insert_position(s, x) <= s.len(),
    decreases s.len(),
{
    if s.len() > 0 {
        lemma_insert_position_bounds(s.drop_first(), x);
    }
}

proof fn lemma_sorted_keeps(s: Seq<DemandLease>, x: DemandLease)
    requires
        s.contains(x),
    ensures
        sorted_by_key(s).contains(x),
    decreases s.len(),
{
    let t = sorted_by_key(s.drop_last());
    let p = insert_position(t, s.last());
    lemma_insert_position_bounds(t, s.last());
    let r = t.insert(p, s.last());
    assert(r == sorted_by_key(s));
    if x == s.last() {
        assert(r[p] == x);
    } else {
        let i = choose|i: int| 0 <= i < s.len() && s[i] == x;
        assert(s.drop_last()[i] == x);
        lemma_sorted_keeps(s.drop_last(), x);
        let j = choose|j: int| 0 <= j < t.len() && t[j] == x;
        if j < p {
            assert(r[j] == x);
        } else {
            assert(r[j + 1] == x);
        }
    }
}

/// An explicit ensure of a well-formed record makes the instance desired up
/// at that instant: the demand is live and newer than any pause.
pub proof fn lemma_ensure_makes_desired(a: AvailabilityView, key: DemandKey, now: u64)
    requires
        spec_availability_valid(a),
    ensures
        spec_ensure(a, key, now) matches Ok(b) ==> spec_desired_up(b, now),
{
    let k = key_view(key);
    if let Ok(b) = spec_ensure(a, key, now) {
        if renews_in_place(a, k, now) {
            let i = key_position(a.demands, k)->0;
            lemma_key_position_none(a.demands, k);
            assert(spec_lease_valid(a.demands[i], a.activity_generation));
            let l = renewed_lease(a.demands[i], now);
            assert(b.demands[i] == l);
            lemma_effective_nonempty(b.demands, b.pause_through_generation, now, i);
        } else {
            let lease = fresh_lease(key, (a.activity_generation + 1) as u64, now);
            let from = without_key(a.demands, k).push(lease);
            assert(from[from.len() - 1] == lease);
            lemma_sorted_keeps(from, lease);
            let j = choose|j: int| 0 <= j < b.demands.len() && b.demands[j] == lease;
            lemma_effective_nonempty(b.demands, b.pause_through_generation, now, j);
        }
    }
}

/// A batch accepted by preparation passes replay validation: the journaled
/// target is exactly what its operations produce from the captured base.
pub proof fn lemma_prepared_batches_validate(
    expected: Option<AvailabilityView>,
    ops: Seq<AvailabilityBatchOperation>,
    at: u64,
    target: Option<AvailabilityView>,
)
    requires
        spec_prepare(expected, ops, at) == Ok::<Option<AvailabilityView>, BatchFailure>(target),
    ensures
        same_image(target, target),
{
}
} // verus!
