//! Privacy-safe ambient agent context.
//!
//! Host adapters derive conversation ownership and workspace locators from
//! private request metadata. The daemon persists only an opaque digest.

use crate::digest::{append_bytes, canonical_digest, is_canonical_digest, lemma_digest_hex_canonical, sha256, sha256_digest};
use crate::text::{all_whitespace, is_blank, lower_hex, lower_hex_string};
use vstd::prelude::*;
use vstd::string::*;

verus! {

/// The protocol version shared by the trusted locald MCP adapter and daemon.
pub const AGENT_ADAPTER_PROTOCOL_VERSION: u32 = 1;

/// A failure to construct or validate private ambient agent context.
#[derive(Debug, Clone, Copy, PartialEq, Eq, Structural)]
pub enum AgentContextError {
    EmptyConversationIdentity,
    InvalidConversationKey,
    UnsupportedProtocol { found: u32, expected: u32 },
    MissingWorkspaceLocator,
}

/// The framed input whose digest names a conversation: the domain separator
/// followed by the identity's UTF-8 bytes.
pub open spec fn conversation_digest_input(private_identity: Seq<char>) -> Seq<u8> {
    vstd::utf8::encode_utf8("locald-agent-conversation-v1\0"@) + vstd::utf8::encode_utf8(private_identity)
}

/// The opaque key of a private conversation identity.
pub open spec fn spec_conversation_digest(private_identity: Seq<char>) -> Seq<char> {
    lower_hex(sha256_digest(conversation_digest_input(private_identity)))
}

/// A stable digest of one private host-provided conversation identity.
///
/// Only the domain-separated digest is ever stored or exchanged.
#[derive(Debug, PartialEq, Eq, PartialOrd, Ord, Hash)]
pub struct AgentConversationKey {
    digest: String,
}

impl View for AgentConversationKey {
    type V = Seq<char>;

    closed spec fn view(&self) -> Seq<char> {
        self.digest@
    }
}

impl Clone for AgentConversationKey {
    fn clone(&self) -> (r: Self)
        ensures
            r@ == self@,
    {
        AgentConversationKey { digest: self.digest.clone() }
    }
}

impl AgentConversationKey {
    /// Digest one canonical private conversation identity before IPC or storage.
    pub fn digest(private_identity: &str) -> (r: Result<Self, AgentContextError>)
        ensures
            match r {
                Ok(k) => !all_whitespace(private_identity@) && k@ == spec_conversation_digest(private_identity@)
                    && is_canonical_digest(k@),
                Err(e) => all_whitespace(private_identity@) && e == AgentContextError::EmptyConversationIdentity,
            },
    {
        if is_blank(private_identity) {
            return Err(AgentContextError::EmptyConversationIdentity);
        }
        let mut input: Vec<u8> = Vec::new();
        append_bytes(&mut input, "locald-agent-conversation-v1\0".as_bytes());
        append_bytes(&mut input, private_identity.as_bytes());
        proof {
            assert(input@ =~= conversation_digest_input(private_identity@));
        }
        let hash = sha256(input.as_slice());
        proof {
            lemma_digest_hex_canonical(input@);
        }
        Ok(AgentConversationKey { digest: lower_hex_string(hash.as_slice()) })
    }

    /// Accept an opaque value loaded from IPC or durable state.
    pub fn from_opaque(value: String) -> (r: Result<Self, AgentContextError>)
        ensures
            match r {
                Ok(k) => is_canonical_digest(value@) && k@ == value@,
                Err(e) => !is_canonical_digest(value@) && e == AgentContextError::InvalidConversationKey,
            },
    {
        let key = AgentConversationKey { digest: value };
        match key.validate() {
            Ok(()) => Ok(key),
            Err(e) => Err(e),
        }
    }

    /// Return the already-opaque value used to derive a demand owner.
    pub fn as_opaque_str(&self) -> (r: &str)
        ensures
            r@ == self@,
    {
        self.digest.as_str()
    }

    /// Validate an opaque value loaded from IPC or durable state.
    pub fn validate(&self) -> (r: Result<(), AgentContextError>)
        ensures
            r is Ok <==> is_canonical_digest(self@),
            r matches Err(e) ==> e == AgentContextError::InvalidConversationKey,
    {
        if canonical_digest(self.digest.as_str()) {
            Ok(())
        } else {
            Err(AgentContextError::InvalidConversationKey)
        }
    }
}

/// Private host context supplied by the authenticated locald MCP adapter.
pub struct AgentWorkspaceContext {
    pub protocol_version: u32,
    pub conversation: AgentConversationKey,
    /// Workspace roots returned by the MCP client.
    pub workspace_roots: Vec<String>,
    /// Trusted Codex sandbox workspace metadata.
    pub sandbox_cwd: Option<String>,
    /// Adapter process working directory, used only as an unambiguous fallback.
    pub process_cwd: Option<String>,
}

impl AgentWorkspaceContext {
    /// Validate protocol and required private context before resolution.
    pub fn validate(&self) -> (r: Result<(), AgentContextError>)
        ensures
            self.protocol_version != AGENT_ADAPTER_PROTOCOL_VERSION ==> r == Err::<(), AgentContextError>(
                AgentContextError::UnsupportedProtocol {
                    found: self.protocol_version,
                    expected: AGENT_ADAPTER_PROTOCOL_VERSION,
                },
            ),
            self.protocol_version == AGENT_ADAPTER_PROTOCOL_VERSION && !is_canonical_digest(self.conversation@) ==> r == Err::<
                (),
                AgentContextError,
            >(AgentContextError::InvalidConversationKey),
            self.protocol_version == AGENT_ADAPTER_PROTOCOL_VERSION && is_canonical_digest(self.conversation@) ==> r == (if self.workspace_roots@.len()
                == 0 && self.sandbox_cwd is None && self.process_cwd is None {
                Err::<(), AgentContextError>(AgentContextError::MissingWorkspaceLocator)
            } else {
                Ok(())
            }),
    {
        if self.protocol_version != AGENT_ADAPTER_PROTOCOL_VERSION {
            return Err(
                AgentContextError::UnsupportedProtocol {
                    found: self.protocol_version,
                    expected: AGENT_ADAPTER_PROTOCOL_VERSION,
                },
            );
        }
        self.conversation.validate()?;
        if self.workspace_roots.len() == 0 && self.sandbox_cwd.is_none() && self.process_cwd.is_none() {
            return Err(AgentContextError::MissingWorkspaceLocator);
        }
        Ok(())
    }
}

/// Whether an ambiently discovered project already has daemon-owned identity.
#[derive(Debug, Clone, Copy, PartialEq, Eq, Structural)]
pub enum AgentProjectRegistration {
    Registered,
    Unregistered,
}

/// Privacy-safe worktree metadata useful to an ambient coding agent.
#[derive(Debug, Clone, PartialEq, Eq)]
pub struct AgentWorktreeStatus {
    pub linked: bool,
    pub label: Option<String>,
    pub domain_slug: Option<String>,
    pub branch: Option<String>,
    pub head: Option<String>,
}

} // verus!
